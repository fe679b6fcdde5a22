//! The directory tree and its size queries.

use vstd::prelude::*;

verus! {

/// Directories whose total size is at most this many bytes count as prunable.
pub const PRUNE_LIMIT: usize = 100000;

/// The mathematical model of an [`FSEntry`].
pub struct EntryView {
    pub name: Seq<char>,
    pub children: Option<Seq<EntryView>>,
    pub size: Option<nat>,
}

/// A file (declared size, no children) or a directory (children, no size).
#[derive(Debug)]
pub struct FSEntry {
    pub name: String,
    /// The children of a directory; `None` for a file.
    pub children: Option<Vec<FSEntry>>,
    /// The size of a file on disk; `None` for a directory.
    pub implicit_size: Option<usize>,
}

impl View for FSEntry {
    type V = EntryView;

    open spec fn view(&self) -> EntryView
        decreases self,
    {
        EntryView {
            name: self.name@,
            children: match self.children {
                Some(c) => Some(views_of(c@)),
                None => None,
            },
            size: match self.implicit_size {
                Some(n) => Some(n as nat),
                None => None,
            },
        }
    }
}

/// The models of the entries `s`, in order.
pub open spec fn views_of(s: Seq<FSEntry>) -> Seq<EntryView>
    decreases s,
{
    if s.len() == 0 {
        Seq::empty()
    } else {
        views_of(s.drop_last()).push(s.last()@)
    }
}

impl EntryView {
    /// A file: a declared size and no children.
    pub open spec fn file(name: Seq<char>, size: nat) -> EntryView {
        EntryView { name, children: None, size: Some(size) }
    }

    /// An empty directory.
    pub open spec fn dir(name: Seq<char>) -> EntryView {
        EntryView { name, children: Some(Seq::empty()), size: None }
    }

    /// This directory with `c` appended to its children.
    pub open spec fn add_child(self, c: EntryView) -> EntryView {
        EntryView { children: Some(self.children.unwrap().push(c)), ..self }
    }

    /// A directory: it has a list of children.
    pub open spec fn is_dir(self) -> bool {
        self.children is Some
    }

    /// Every entry of the tree is a file or a directory, never both, never neither.
    pub open spec fn wf(self) -> bool
        decreases self,
    {
        match self.children {
            Some(c) => self.size is None && all_wf(c),
            None => self.size is Some,
        }
    }

    /// The declared size of a file; the sum of the children's sizes for a directory.
    pub open spec fn total(self) -> nat
        decreases self,
    {
        match self.size {
            Some(n) => n,
            None => match self.children {
                Some(c) => total_of(c),
                None => 0,
            },
        }
    }

    /// The sum, over every child directory, of its size when that is at most
    /// `PRUNE_LIMIT` bytes, plus its own prunable size: so the size of every descendant
    /// directory of at most `PRUNE_LIMIT` bytes, wherever it stands below this entry.
    pub open spec fn prunable(self) -> nat
        decreases self,
    {
        match self.children {
            Some(c) => prunable_of(c),
            None => 0,
        }
    }
}

/// Every entry of `s` is well formed.
pub open spec fn all_wf(s: Seq<EntryView>) -> bool
    decreases s,
{
    if s.len() == 0 {
        true
    } else {
        all_wf(s.drop_last()) && s.last().wf()
    }
}

/// The sum of the total sizes of `s`.
pub open spec fn total_of(s: Seq<EntryView>) -> nat
    decreases s,
{
    if s.len() == 0 {
        0
    } else {
        total_of(s.drop_last()) + s.last().total()
    }
}

/// The sum, over the directories of `s`, of their size when that is at most
/// `PRUNE_LIMIT` bytes, plus their own prunable size.
pub open spec fn prunable_of(s: Seq<EntryView>) -> nat
    decreases s,
{
    if s.len() == 0 {
        0
    } else {
        prunable_of(s.drop_last()) + if s.last().is_dir() {
            (if s.last().total() <= PRUNE_LIMIT {
                s.last().total()
            } else {
                0
            }) + s.last().prunable()
        } else {
            0
        }
    }
}

/// A directory's total size is the sum of its children's total sizes.
pub proof fn lemma_directory_total(e: EntryView)
    requires
        e.children is Some,
        e.size is None,
    ensures
        e.total() == total_of(e.children->Some_0),
{
}

/// A file's total size is its declared size.
pub proof fn lemma_file_total(e: EntryView)
    requires
        e.children is None,
        e.size is Some,
    ensures
        e.total() == e.size->Some_0,
{
}

pub(crate) proof fn lemma_views_of(s: Seq<FSEntry>)
    ensures
        views_of(s).len() == s.len(),
        forall|i: int| 0 <= i < s.len() ==> #[trigger] views_of(s)[i] == s[i]@,
    decreases s.len(),
{
    if s.len() > 0 {
        lemma_views_of(s.drop_last());
        assert(views_of(s) == views_of(s.drop_last()).push(s.last()@));
    }
}

proof fn lemma_total_of_prefix(s: Seq<EntryView>, i: int)
    requires
        0 <= i < s.len(),
    ensures
        total_of(s.take(i + 1)) == total_of(s.take(i)) + s[i].total(),
        total_of(s.take(i + 1)) <= total_of(s),
    decreases s.len(),
{
    assert(s.take(i + 1).drop_last() =~= s.take(i));
    if i + 1 < s.len() {
        lemma_total_of_prefix(s.drop_last(), i);
        assert(s.drop_last().take(i + 1) =~= s.take(i + 1));
        assert(s.drop_last().take(i) =~= s.take(i));
    } else {
        assert(s.take(i + 1) =~= s);
    }
}

proof fn lemma_prunable_of_prefix(s: Seq<EntryView>, i: int)
    requires
        0 <= i < s.len(),
    ensures
        prunable_of(s.take(i + 1)) == prunable_of(s.take(i)) + if s[i].is_dir() {
            (if s[i].total() <= PRUNE_LIMIT {
                s[i].total()
            } else {
                0
            }) + s[i].prunable()
        } else {
            0
        },
        prunable_of(s.take(i + 1)) <= prunable_of(s),
    decreases s.len(),
{
    assert(s.take(i + 1).drop_last() =~= s.take(i));
    if i + 1 < s.len() {
        lemma_prunable_of_prefix(s.drop_last(), i);
        assert(s.drop_last().take(i + 1) =~= s.take(i + 1));
        assert(s.drop_last().take(i) =~= s.take(i));
    } else {
        assert(s.take(i + 1) =~= s);
    }
}

proof fn lemma_all_wf(s: Seq<EntryView>, i: int)
    requires
        all_wf(s),
        0 <= i < s.len(),
    ensures
        s[i].wf(),
    decreases s.len(),
{
    if i + 1 < s.len() {
        lemma_all_wf(s.drop_last(), i);
    }
}

impl FSEntry {
    /// An entry with the given fields.
    pub fn new(name: String, children: Option<Vec<FSEntry>>, implicit_size: Option<usize>) -> (r:
        Self)
        ensures
            r.name == name,
            r.children == children,
            r.implicit_size == implicit_size,
    {
        FSEntry { name, children, implicit_size }
    }

    /// This directory with `c` appended to its children.
    pub fn with_child(self, c: FSEntry) -> (r: FSEntry)
        requires
            self.children is Some,
        ensures
            r.children is Some,
            r@ == self@.add_child(c@),
    {
        let FSEntry { name, children, implicit_size } = self;
        let mut kids = children.unwrap();
        let ghost before = kids@;
        kids.push(c);
        assert(kids@.drop_last() =~= before);
        FSEntry { name, children: Some(kids), implicit_size }
    }

    /// The total size in bytes: a file's declared size, or the sum over a directory's
    /// children.
    pub fn size(&self) -> (r: usize)
        requires
            self@.total() <= usize::MAX,
        ensures
            r == self@.total(),
        decreases self,
    {
        match self.implicit_size {
            Some(n) => n,
            None => match &self.children {
                Some(children) => {
                    let ghost kids = views_of(children@);
                    proof {
                        lemma_views_of(children@);
                    }
                    let mut sum: usize = 0;
                    let mut i: usize = 0;
                    while i < children.len()
                        invariant
                            i <= children.len(),
                            self.children == Some(*children),
                        kids == views_of(children@),
                            kids.len() == children.len(),
                            forall|j: int| 0 <= j < children.len() ==> #[trigger] kids[j] == children@[j]@,
                            total_of(kids) <= usize::MAX,
                            sum == total_of(kids.take(i as int)),
                        decreases children.len() - i,
                    {
                        proof {
                            lemma_total_of_prefix(kids, i as int);
                        }
                        assert(decreases_to!(self.children => self.children->Some_0));
                        assert(decreases_to!(children => children[i as int]));
                        let s = children[i].size();
                        sum = sum + s;
                        i = i + 1;
                    }
                    assert(kids.take(i as int) =~= kids);
                    sum
                },
                None => 0,
            },
        }
    }

    /// The sum, over every child directory, of its size when that is at most
    /// `PRUNE_LIMIT` bytes, plus its own prunable size (see `EntryView::prunable`).
    pub fn prunable_size(&self) -> (r: usize)
        requires
            self@.wf(),
            self@.total() <= usize::MAX,
            self@.prunable() <= usize::MAX,
        ensures
            r == self@.prunable(),
        decreases self,
    {
        match &self.children {
            Some(children) => {
                let ghost kids = views_of(children@);
                proof {
                    lemma_views_of(children@);
                }
                let mut sum: usize = 0;
                let mut i: usize = 0;
                while i < children.len()
                    invariant
                        i <= children.len(),
                        self.children == Some(*children),
                        kids == views_of(children@),
                        kids.len() == children.len(),
                        forall|j: int| 0 <= j < children.len() ==> #[trigger] kids[j] == children@[j]@,
                        all_wf(kids),
                        total_of(kids) <= usize::MAX,
                        prunable_of(kids) <= usize::MAX,
                        sum == prunable_of(kids.take(i as int)),
                    decreases children.len() - i,
                {
                    proof {
                        lemma_total_of_prefix(kids, i as int);
                        lemma_prunable_of_prefix(kids, i as int);
                        lemma_all_wf(kids, i as int);
                    }
                    assert(decreases_to!(self.children => self.children->Some_0));
                    assert(decreases_to!(children => children[i as int]));
                    let c = &children[i];
                    if c.children.is_some() {
                        let s = c.size();
                        let p = c.prunable_size();
                        if s <= PRUNE_LIMIT {
                            sum = sum + s + p;
                        } else {
                            sum = sum + p;
                        }
                    }
                    i = i + 1;
                }
                assert(kids.take(i as int) =~= kids);
                sum
            },
            None => 0,
        }
    }
}

} // verus!
