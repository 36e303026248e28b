//! Identifier sets: one per text source, backing one output bucket each.
//!
//! A text source holds one identifier per line. Loading trims each line and
//! inserts the trimmed token into a set; a trimmed blank line becomes the
//! empty-string identifier on purpose, so that loading never filters a line.

use vstd::prelude::*;
use vstd::hash_set::StringHashSet;

verus! {

/// The characters that `str::trim` leaves of a line: the line without its
/// leading and trailing whitespace. The result depends on the characters of
/// the line alone.
pub uninterp spec fn trim_of(line: Seq<char>) -> Seq<char>;

/// Relies on `str::trim`: returns the line without leading and trailing
/// whitespace, a function of the line's characters alone; an empty line
/// stays empty.
#[verifier::external_body]
fn trim_line(line: &String) -> (r: String)
    ensures
        r@ == trim_of(line@),
        line@.len() == 0 ==> r@.len() == 0,
{
    line.trim().to_owned()
}

/// The views of a sequence of strings.
pub open spec fn id_views(lines: Seq<String>) -> Seq<Seq<char>> {
    lines.map_values(|s: String| s@)
}

/// The set of identifiers that loading the given lines produces: the trimmed
/// form of every line, blank lines included (they load as the empty string).
pub open spec fn lines_to_ids(lines: Seq<Seq<char>>) -> Set<Seq<char>>
    decreases lines.len(),
{
    if lines.len() == 0 {
        Set::empty()
    } else {
        lines_to_ids(lines.drop_last()).insert(trim_of(lines.last()))
    }
}

/// A mutable set of record identifiers, created once from one text source and
/// mutated only by removal while records are routed.
pub struct IdSet {
    ids: StringHashSet,
}

impl View for IdSet {
    type V = Set<Seq<char>>;

    closed spec fn view(&self) -> Set<Seq<char>> {
        self.ids@
    }
}

impl IdSet {
    /// An empty identifier set, as an empty text source produces it.
    pub fn new() -> (s: Self)
        ensures
            s@ == Set::<Seq<char>>::empty(),
            s@.finite(),
    {
        IdSet { ids: StringHashSet::new() }
    }

    /// Loads one text source, given as its lines: each line is trimmed and
    /// the trimmed token inserted. The resulting set is a function of the
    /// lines alone, so loading the same source twice gives the same set.
    pub fn from_lines(lines: &Vec<String>) -> (s: Self)
        ensures
            s@ == lines_to_ids(id_views(lines@)),
            s@.finite(),
    {
        let mut ids = StringHashSet::new();
        let n: usize = lines.len();
        let mut i: usize = 0;
        while i < n
            invariant
                n == lines@.len(),
                i <= n,
                ids@ == lines_to_ids(id_views(lines@).take(i as int)),
                ids@.finite(),
            decreases n - i,
        {
            let trimmed = trim_line(&lines[i]);
            ids.insert(trimmed);
            proof {
                let views = id_views(lines@);
                assert(views.take(i + 1).drop_last() =~= views.take(i as int));
                assert(views.take(i + 1).last() == lines@[i as int]@);
            }
            i += 1;
        }
        proof {
            assert(id_views(lines@).take(n as int) =~= id_views(lines@));
        }
        IdSet { ids }
    }

    /// Whether the set currently holds the identifier.
    pub fn contains(&self, id: &str) -> (present: bool)
        ensures
            present == self@.contains(id@),
    {
        self.ids.contains(id)
    }

    /// Removes the identifier if present; reports whether it was present.
    pub fn remove(&mut self, id: &str) -> (removed: bool)
        ensures
            removed == old(self)@.contains(id@),
            final(self)@ == old(self)@.remove(id@),
            old(self)@.finite() ==> final(self)@.finite(),
    {
        self.ids.remove(id)
    }

    /// The number of identifiers currently in the set; after a run this is
    /// the bucket's leftover count.
    pub fn len(&self) -> (n: usize)
        ensures
            n == self@.len(),
    {
        self.ids.len()
    }
}

} // verus!
