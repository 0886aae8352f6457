//! Locations: a path as its root and the sequence of its components.

use vstd::prelude::*;

verus! {

/// A path: the root that it starts from, and its components from first to
/// last.
///
/// The root of a relative path is the empty string; any other root is what
/// the file system writes for it. The library never interprets a root or a
/// component: joining is appending, the parent is everything but the last
/// component, and one location lies beneath another when it has the other's
/// root and the other's components are a prefix of its own.
///
/// As the contracts see it, a location is one sequence: its root, then its
/// components.
#[derive(Debug)]
pub struct Location {
    pub root: String,
    pub parts: Vec<String>,
}

/// The components of a sequence of strings, each as its characters.
pub open spec fn parts_view(parts: Seq<String>) -> Seq<Seq<char>> {
    Seq::new(parts.len(), |i: int| parts[i]@)
}

/// The relative location with these components.
pub open spec fn relative(parts: Seq<Seq<char>>) -> Seq<Seq<char>> {
    seq![Seq::<char>::empty()] + parts
}

/// `prefix` is an initial segment of `path`, the whole of it included.
pub open spec fn is_prefix(prefix: Seq<Seq<char>>, path: Seq<Seq<char>>) -> bool {
    prefix.len() <= path.len() && path.subrange(0, prefix.len() as int) == prefix
}

/// `path` lies beneath `dir` and is not `dir` itself.
pub open spec fn strictly_beneath(dir: Seq<Seq<char>>, path: Seq<Seq<char>>) -> bool {
    is_prefix(dir, path) && dir != path
}

/// Every location is a prefix of itself.
pub proof fn lemma_prefix_reflexive(a: Seq<Seq<char>>)
    ensures
        is_prefix(a, a),
{
    assert(a.subrange(0, a.len() as int) =~= a);
}

/// A prefix of a prefix is a prefix.
pub proof fn lemma_prefix_transitive(a: Seq<Seq<char>>, b: Seq<Seq<char>>, c: Seq<Seq<char>>)
    requires
        is_prefix(a, b),
        is_prefix(b, c),
    ensures
        is_prefix(a, c),
{
    assert(c.subrange(0, a.len() as int) =~= b.subrange(0, a.len() as int));
}

/// A location lies beneath its parent, and what is a prefix of a location is
/// the location itself or a prefix of its parent.
pub proof fn lemma_prefix_of_child(p: Seq<Seq<char>>, child: Seq<Seq<char>>)
    requires
        child.len() > 0,
    ensures
        is_prefix(child.drop_last(), child),
        is_prefix(p, child) ==> p == child || is_prefix(p, child.drop_last()),
{
    let dir = child.drop_last();
    assert(child.subrange(0, dir.len() as int) =~= dir);
    if is_prefix(p, child) && p != child {
        if p.len() == child.len() {
            assert(child.subrange(0, p.len() as int) =~= child);
        }
        assert(dir.subrange(0, p.len() as int) =~= child.subrange(0, p.len() as int));
    }
}

impl View for Location {
    type V = Seq<Seq<char>>;

    open spec fn view(&self) -> Seq<Seq<char>> {
        seq![self.root@] + parts_view(self.parts@)
    }
}

impl Location {
    /// The relative location with no components.
    pub fn new() -> (res: Location)
        ensures
            res@ == relative(Seq::empty()),
    {
        let res = Location { root: String::new(), parts: Vec::new() };
        assert(res@ =~= relative(Seq::empty()));
        res
    }

    /// The relative location made of the given components.
    pub fn from_parts(parts: Vec<String>) -> (res: Location)
        ensures
            res@ == relative(parts_view(parts@)),
            res.parts == parts,
    {
        let res = Location { root: String::new(), parts };
        assert(res@ =~= relative(parts_view(parts@)));
        res
    }

    /// The location that starts from `root` and has the given components.
    pub fn rooted(root: String, parts: Vec<String>) -> (res: Location)
        ensures
            res@ == seq![root@] + parts_view(parts@),
            res.root == root,
            res.parts == parts,
    {
        Location { root, parts }
    }

    /// The number of components.
    pub fn len(&self) -> (res: usize)
        ensures
            res == self@.len() - 1,
    {
        self.parts.len()
    }

    /// A copy of this location.
    pub fn duplicate(&self) -> (res: Location)
        ensures
            res@ == self@,
    {
        let res = self.prefix(self.parts.len());
        assert(self@.subrange(0, self@.len() as int) =~= self@);
        res
    }

    /// The root with the first `n` components.
    pub fn prefix(&self, n: usize) -> (res: Location)
        requires
            n < self@.len(),
        ensures
            res@ == self@.subrange(0, n + 1),
    {
        let mut parts: Vec<String> = Vec::new();
        let mut i: usize = 0;
        while i < n
            invariant
                i <= n <= self.parts@.len(),
                parts@.len() == i,
                forall|k: int| 0 <= k < i ==> parts@[k]@ == self.parts@[k]@,
            decreases n - i,
        {
            parts.push(self.parts[i].clone());
            i += 1;
        }
        let res = Location { root: self.root.clone(), parts };
        assert(res@ =~= self@.subrange(0, n + 1));
        res
    }

    /// This location with one more component at its end.
    pub fn join(&self, component: &str) -> (res: Location)
        ensures
            res@ == self@.push(component@),
    {
        let mut res = self.duplicate();
        res.push(component);
        res
    }

    /// Appends one component.
    pub fn push(&mut self, component: &str)
        ensures
            final(self)@ == old(self)@.push(component@),
    {
        self.parts.push(component.to_owned());
        assert(self@ =~= old(self)@.push(component@));
    }

    /// Appends the components of `other`; the root of `other` is left out.
    pub fn append(&mut self, other: &Location)
        ensures
            final(self)@ == old(self)@ + other@.drop_first(),
    {
        let mut i: usize = 0;
        assert(other@.drop_first() =~= parts_view(other.parts@));
        while i < other.parts.len()
            invariant
                i <= other.parts@.len(),
                self@ == old(self)@ + parts_view(other.parts@).subrange(0, i as int),
            decreases other.parts@.len() - i,
        {
            self.push(other.parts[i].as_str());
            assert(self@ =~= old(self)@ + parts_view(other.parts@).subrange(0, i + 1));
            i += 1;
        }
        assert(parts_view(other.parts@).subrange(0, other.parts@.len() as int) =~= parts_view(
            other.parts@,
        ));
    }

    /// Everything but the last component, or `None` for a location without
    /// components: a bare root, or the empty relative location.
    pub fn parent(&self) -> (res: Option<Location>)
        ensures
            match res {
                Some(p) => self@.len() > 1 && p@ == self@.drop_last(),
                None => self@.len() == 1,
            },
    {
        let n = self.parts.len();
        if n == 0 {
            None
        } else {
            let res = self.prefix(n - 1);
            assert(self@.drop_last() =~= self@.subrange(0, n as int));
            Some(res)
        }
    }

    /// The last component, or `None` for a location without components.
    pub fn file_name(&self) -> (res: Option<&str>)
        ensures
            match res {
                Some(s) => self@.len() > 1 && s@ == self@.last(),
                None => self@.len() == 1,
            },
    {
        let n = self.parts.len();
        if n == 0 {
            None
        } else {
            Some(self.parts[n - 1].as_str())
        }
    }

    /// The last component, or the root where there is no component.
    pub fn tail(&self) -> (res: &str)
        ensures
            res@ == self@.last(),
    {
        let n = self.parts.len();
        if n == 0 {
            self.root.as_str()
        } else {
            self.parts[n - 1].as_str()
        }
    }

    /// Whether `other` names the same location: the same root and the same
    /// components.
    pub fn same(&self, other: &Location) -> (res: bool)
        ensures
            res == (self@ == other@),
    {
        if self.parts.len() != other.parts.len() {
            assert(self@.len() != other@.len());
            return false;
        }
        if self.root != other.root {
            assert(self@[0] != other@[0]);
            return false;
        }
        let mut i: usize = 0;
        while i < self.parts.len()
            invariant
                i <= self.parts@.len(),
                self.parts@.len() == other.parts@.len(),
                forall|k: int| 0 <= k < i ==> self.parts@[k]@ == other.parts@[k]@,
            decreases self.parts@.len() - i,
        {
            if self.parts[i] != other.parts[i] {
                assert(self@[i + 1] != other@[i + 1]);
                return false;
            }
            i += 1;
        }
        assert(self@ =~= other@);
        true
    }

    /// Whether this location is `other` or lies beneath it.
    pub fn starts_with(&self, other: &Location) -> (res: bool)
        ensures
            res == is_prefix(other@, self@),
    {
        if other.parts.len() > self.parts.len() {
            return false;
        }
        if self.root != other.root {
            assert(self@.subrange(0, other@.len() as int)[0] != other@[0]);
            return false;
        }
        let mut i: usize = 0;
        while i < other.parts.len()
            invariant
                i <= other.parts@.len() <= self.parts@.len(),
                forall|k: int| 0 <= k < i ==> self.parts@[k]@ == other.parts@[k]@,
            decreases other.parts@.len() - i,
        {
            if self.parts[i] != other.parts[i] {
                assert(self@.subrange(0, other@.len() as int)[i + 1] != other@[i + 1]);
                return false;
            }
            i += 1;
        }
        assert(self@.subrange(0, other@.len() as int) =~= other@);
        true
    }
}

} // verus!
