//! Object identities, and the reconciliation of a rendered scene with a new frame.
use vstd::prelude::*;

use crate::palette::{color_at, palette_after, Color, Palette, PaletteView};

verus! {

/// The way to identify an object: a list of names, one per level of a hierarchy.
///
/// For a protein the levels might be residue name, residue number, element and
/// atom name. Two objects are the same object when all their names agree.
#[derive(Debug, Eq, PartialOrd, Ord, Hash)]
pub struct ObjectID(pub Vec<String>);

impl View for ObjectID {
    type V = Seq<Seq<char>>;

    open spec fn view(&self) -> Seq<Seq<char>> {
        self.0@.map_values(|s: String| s@)
    }
}

impl ObjectID {
    /// An identity with the given names, outermost level first.
    pub fn new(names: Vec<String>) -> (r: ObjectID)
        ensures
            r.0@ == names@,
            r@ == names@.map_values(|s: String| s@),
    {
        ObjectID(names)
    }

    /// Whether the two identities hold the same names, level by level.
    pub fn same_as(&self, other: &ObjectID) -> (r: bool)
        ensures
            r == (self@ == other@),
    {
        if self.0.len() != other.0.len() {
            assert(self@.len() != other@.len());
            return false;
        }
        let mut i: usize = 0;
        while i < self.0.len()
            invariant
                i <= self.0.len() == other.0.len(),
                forall|j: int| 0 <= j < i ==> self@[j] == other@[j],
            decreases self.0.len() - i,
        {
            if self.0[i] != other.0[i] {
                assert(self@[i as int] != other@[i as int]);
                return false;
            }
            i += 1;
        }
        assert(self@ =~= other@);
        true
    }
}

impl PartialEq for ObjectID {
    fn eq(&self, other: &ObjectID) -> (r: bool) {
        self.same_as(other)
    }
}

impl vstd::std_specs::cmp::PartialEqSpecImpl for ObjectID {
    open spec fn obeys_eq_spec() -> bool {
        true
    }

    open spec fn eq_spec(&self, other: &ObjectID) -> bool {
        self@ == other@
    }
}

impl Clone for ObjectID {
    fn clone(&self) -> (r: ObjectID)
        ensures
            r@ == self@,
    {
        let names = self.0.clone();
        assert(names@.map_values(|s: String| s@) =~= self@);
        ObjectID(names)
    }
}

/// The identities of a list of objects, in order.
pub open spec fn id_views(s: Seq<ObjectID>) -> Seq<Seq<Seq<char>>> {
    s.map_values(|x: ObjectID| x@)
}

/// Whether `id` occurs in `ids`.
pub fn contains_id(ids: &Vec<ObjectID>, id: &ObjectID) -> (r: bool)
    ensures
        r == id_views(ids@).contains(id@),
{
    let mut i: usize = 0;
    while i < ids.len()
        invariant
            i <= ids@.len(),
            forall|j: int| 0 <= j < i ==> ids@[j]@ != id@,
        decreases ids.len() - i,
    {
        if ids[i].same_as(id) {
            assert(id_views(ids@)[i as int] == id@);
            return true;
        }
        i += 1;
    }
    false
}

/// What the scene has to do for one object of a new frame, or for one that left it.
#[derive(Debug, PartialEq, Eq)]
pub enum Change {
    /// Object `index` of the frame was not on show: create it, in this color.
    Create(usize, Color),
    /// Object `index` of the frame was on show: bring it up to date, in this color.
    Update(usize, Color),
    /// The object with this identity is not in the frame: remove it.
    Remove(ObjectID),
}

/// The identity named by a [`Change::Remove`]; empty for the other changes.
pub open spec fn removed_id(c: Change) -> Seq<Seq<char>> {
    match c {
        Change::Remove(id) => id@,
        _ => Seq::empty(),
    }
}

/// The identities named by a list of changes.
pub open spec fn removed_ids(s: Seq<Change>) -> Seq<Seq<Seq<char>>> {
    s.map_values(|c: Change| removed_id(c))
}

/// Whether `names[n]` is on show neither before the frame nor earlier in it.
pub open spec fn is_new_at(live: Set<Seq<Seq<char>>>, names: Seq<Seq<Seq<char>>>, n: int) -> bool {
    !live.contains(names[n]) && !names.take(n).contains(names[n])
}

/// The change for object `n` of a frame with identities `names`, when `live` were on
/// show before it and the palette was `p`.
pub open spec fn frame_change(
    live: Set<Seq<Seq<char>>>,
    names: Seq<Seq<Seq<char>>>,
    p: PaletteView,
    n: int,
) -> Change {
    if is_new_at(live, names, n) {
        Change::Create(n as usize, color_at(p, names, n))
    } else {
        Change::Update(n as usize, color_at(p, names, n))
    }
}

/// The identities on show before a frame that are not in it.
pub open spec fn gone(live: Set<Seq<Seq<char>>>, names: Seq<Seq<Seq<char>>>) -> Set<Seq<Seq<char>>> {
    live.difference(names.to_set())
}

/// `changes` bring the scene from `live` on show to a frame with identities `names`,
/// colored from the palette `p`: first, one change per object of the frame, in
/// order (see [`frame_change`]); then one `Remove` for each identity that is
/// [`gone`], each once.
pub open spec fn reconciles(
    live: Set<Seq<Seq<char>>>,
    names: Seq<Seq<Seq<char>>>,
    p: PaletteView,
    changes: Seq<Change>,
) -> bool {
    &&& changes.len() >= names.len()
    &&& forall|n: int| 0 <= n < names.len() ==> #[trigger] changes[n] == frame_change(live, names, p, n)
    &&& forall|t: int| names.len() <= t < changes.len() ==> #[trigger] changes[t] is Remove
    &&& removed_ids(changes.skip(names.len() as int)).no_duplicates()
    &&& removed_ids(changes.skip(names.len() as int)).to_set() == gone(live, names)
}

/// Keeps track of which objects are on show, and works out what to create, update
/// and remove when a new frame comes.
#[derive(Debug)]
pub struct ObjectTracker {
    live: Vec<ObjectID>,
}

impl View for ObjectTracker {
    type V = Set<Seq<Seq<char>>>;

    closed spec fn view(&self) -> Set<Seq<Seq<char>>> {
        id_views(self.live@).to_set()
    }
}

proof fn lemma_push_no_dup(s: Seq<Seq<Seq<char>>>, x: Seq<Seq<char>>)
    requires
        s.no_duplicates(),
        !s.contains(x),
    ensures
        s.push(x).no_duplicates(),
        s.push(x).to_set() == s.to_set().insert(x),
{
    s.lemma_push_to_set_commute(x);
    assert forall|i: int, j: int| 0 <= i < s.push(x).len() && 0 <= j < s.push(x).len() && i != j
        implies s.push(x)[i] != s.push(x)[j] by {
        if i == s.len() {
            assert(s[j] == s.push(x)[j]);
        } else if j == s.len() {
            assert(s[i] == s.push(x)[i]);
        }
    }
}

proof fn lemma_push_views(s: Seq<ObjectID>, x: ObjectID)
    ensures
        id_views(s.push(x)) == id_views(s).push(x@),
{
    assert(id_views(s.push(x)) =~= id_views(s).push(x@));
}

impl ObjectTracker {
    /// No identity is on show twice.
    pub closed spec fn wf(&self) -> bool {
        id_views(self.live@).no_duplicates()
    }

    /// A tracker with nothing on show.
    pub fn new() -> (r: ObjectTracker)
        ensures
            r.wf(),
            r@ == Set::<Seq<Seq<char>>>::empty(),
    {
        let r = ObjectTracker { live: Vec::new() };
        assert(r@ =~= Set::<Seq<Seq<char>>>::empty());
        r
    }

    /// The number of objects on show.
    pub fn len(&self) -> (r: usize)
        requires
            self.wf(),
        ensures
            r == self@.len(),
    {
        proof {
            id_views(self.live@).unique_seq_to_set();
        }
        self.live.len()
    }

    /// Whether the object with identity `id` is on show.
    pub fn contains(&self, id: &ObjectID) -> (r: bool)
        ensures
            r == self@.contains(id@),
    {
        contains_id(&self.live, id)
    }

    /// Brings the scene from what is on show to the frame whose objects have the
    /// identities `ids`, in order, and colors each of them with `palette`.
    ///
    /// The changes are, first, one per object of the frame, in order: `Create` for
    /// an identity on show neither before nor earlier in the frame, else `Update`;
    /// then one `Remove` for each identity on show before that the frame lacks.
    /// Where an identity occurs twice in the frame, its first object creates it and
    /// the later ones update it, so the last one wins.
    pub fn update(&mut self, ids: &Vec<ObjectID>, palette: &mut Palette) -> (changes: Vec<Change>)
        requires
            old(self).wf(),
            old(palette).wf(),
        ensures
            final(self).wf(),
            final(palette).wf(),
            final(self)@ == id_views(ids@).to_set(),
            final(palette)@ == palette_after(old(palette)@, id_views(ids@), ids@.len() as int),
            reconciles(old(self)@, id_views(ids@), old(palette)@, changes@),
    {
        let ghost old_seq = id_views(self.live@);
        let ghost old_set = self@;
        let ghost names = id_views(ids@);
        let ghost start_palette = palette@;
        let old_len = self.live.len();
        let mut changes: Vec<Change> = Vec::new();
        let mut i: usize = 0;
        while i < ids.len()
            invariant
                i <= ids@.len(),
                names == id_views(ids@),
                old_len <= self.live@.len(),
                id_views(self.live@).take(old_len as int) == old_seq,
                old_seq.to_set() == old_set,
                old_seq.len() == old_len,
                id_views(self.live@).no_duplicates(),
                id_views(self.live@).to_set() == old_set.union(names.take(i as int).to_set()),
                palette.wf(),
                palette@ == palette_after(start_palette, names, i as int),
                changes@.len() == i,
                forall|n: int| 0 <= n < i ==> #[trigger] changes@[n] == frame_change(old_set, names, start_palette, n),
            decreases ids.len() - i,
        {
            let ghost live_view = id_views(self.live@);
            let known = contains_id(&self.live, &ids[i]);
            let color = palette.get_color(&ids[i]);
            proof {
                assert(names[i as int] == ids@[i as int]@);
                assert(live_view.to_set().contains(names[i as int]) == live_view.contains(names[i as int]));
                assert(names.take(i + 1) =~= names.take(i as int).push(names[i as int]));
                names.take(i as int).lemma_push_to_set_commute(names[i as int]);
            }
            if known {
                changes.push(Change::Update(i, color));
            } else {
                changes.push(Change::Create(i, color));
                let id = ids[i].clone();
                self.live.push(id);
                proof {
                    lemma_push_views(old(self).live@, id);
                    lemma_push_no_dup(live_view, names[i as int]);
                    assert(id_views(self.live@) == live_view.push(names[i as int]));
                    assert(id_views(self.live@).take(old_len as int) =~= live_view.take(old_len as int));
                }
            }
            proof {
                assert(id_views(self.live@).to_set() =~= old_set.union(names.take(i + 1).to_set()));
            }
            i += 1;
        }
        assert(names.take(ids@.len() as int) =~= names);
        let ghost full = id_views(self.live@);
        let mut kept: Vec<ObjectID> = Vec::new();
        let mut j: usize = 0;
        while j < old_len
            invariant
                j <= old_len <= self.live@.len(),
                names == id_views(ids@),
                full == id_views(self.live@),
                full.take(old_len as int) == old_seq,
                full.no_duplicates(),
                changes@.len() >= ids@.len(),
                forall|n: int| 0 <= n < ids@.len() ==> #[trigger] changes@[n] == frame_change(old_set, names, start_palette, n),
                forall|t: int| ids@.len() <= t < changes@.len() ==> #[trigger] changes@[t] is Remove,
                removed_ids(changes@.skip(ids@.len() as int)).no_duplicates(),
                removed_ids(changes@.skip(ids@.len() as int)).to_set()
                    == old_seq.take(j as int).to_set().difference(names.to_set()),
                id_views(kept@).no_duplicates(),
                id_views(kept@).to_set() == old_seq.take(j as int).to_set().intersect(names.to_set()),
            decreases old_len - j,
        {
            let ghost x = full[j as int];
            let ghost before = removed_ids(changes@.skip(ids@.len() as int));
            proof {
                assert(old_seq[j as int] == x);
                assert(self.live@[j as int]@ == x);
                assert(old_seq.take(j + 1) =~= old_seq.take(j as int).push(x));
                old_seq.take(j as int).lemma_push_to_set_commute(x);
                assert(!old_seq.take(j as int).contains(x)) by {
                    if old_seq.take(j as int).contains(x) {
                        let k = choose|k: int| 0 <= k < j && old_seq.take(j as int)[k] == x;
                        assert(full[k] == x);
                    }
                }
            }
            let id = self.live[j].clone();
            if contains_id(ids, &self.live[j]) {
                let ghost kv = id_views(kept@);
                kept.push(id);
                proof {
                    lemma_push_views(kept@.drop_last(), id);
                    assert(id_views(kept@) =~= kv.push(x));
                    assert(!kv.contains(x)) by {
                        if kv.contains(x) {
                            assert(kv.to_set().contains(x));
                        }
                    }
                    lemma_push_no_dup(kv, x);
                    assert(id_views(kept@).to_set() =~= old_seq.take(j + 1).to_set().intersect(names.to_set()));
                    assert(removed_ids(changes@.skip(ids@.len() as int)).to_set()
                        =~= old_seq.take(j + 1).to_set().difference(names.to_set()));
                }
            } else {
                changes.push(Change::Remove(id));
                proof {
                    assert(changes@.skip(ids@.len() as int) =~= changes@.drop_last().skip(ids@.len() as int).push(Change::Remove(id)));
                    assert(removed_ids(changes@.skip(ids@.len() as int)) =~= before.push(x));
                    assert(!before.contains(x)) by {
                        if before.contains(x) {
                            assert(before.to_set().contains(x));
                        }
                    }
                    lemma_push_no_dup(before, x);
                    assert(removed_ids(changes@.skip(ids@.len() as int)).to_set()
                        =~= old_seq.take(j + 1).to_set().difference(names.to_set()));
                    assert(id_views(kept@).to_set() =~= old_seq.take(j + 1).to_set().intersect(names.to_set()));
                }
            }
            j += 1;
        }
        assert(old_seq.take(old_len as int) =~= old_seq);
        let mut m: usize = old_len;
        while m < self.live.len()
            invariant
                old_len <= m <= self.live@.len(),
                old_seq.to_set() == old_set,
                old_seq.len() == old_len,
                full == id_views(self.live@),
                full.take(old_len as int) == old_seq,
                full.no_duplicates(),
                id_views(kept@).no_duplicates(),
                id_views(kept@).to_set() == old_set.intersect(names.to_set()).union(
                    full.subrange(old_len as int, m as int).to_set()),
            decreases self.live.len() - m,
        {
            let ghost x = full[m as int];
            let ghost kv = id_views(kept@);
            let id = self.live[m].clone();
            kept.push(id);
            proof {
                assert(self.live@[m as int]@ == x);
                assert(id_views(kept@) =~= kv.push(x));
                assert(full.subrange(old_len as int, m + 1) =~= full.subrange(old_len as int, m as int).push(x));
                full.subrange(old_len as int, m as int).lemma_push_to_set_commute(x);
                assert(!kv.contains(x)) by {
                    if kv.contains(x) {
                        assert(kv.to_set().contains(x));
                        if old_set.contains(x) {
                            let k = choose|k: int| 0 <= k < old_seq.len() && old_seq[k] == x;
                            assert(full[k] == x);
                        } else {
                            let k = choose|k: int| 0 <= k < m - old_len
                                && full.subrange(old_len as int, m as int)[k] == x;
                            assert(full[old_len + k] == x);
                        }
                    }
                }
                lemma_push_no_dup(kv, x);
                assert(id_views(kept@).to_set() =~= old_set.intersect(names.to_set()).union(
                    full.subrange(old_len as int, m + 1).to_set()));
            }
            m += 1;
        }
        proof {
            let fresh = full.subrange(old_len as int, full.len() as int);
            assert forall|x: Seq<Seq<char>>| names.to_set().contains(x) implies
                old_set.intersect(names.to_set()).union(fresh.to_set()).contains(x) by {
                if !old_set.contains(x) {
                    assert(full.to_set().contains(x));
                    let k = choose|k: int| 0 <= k < full.len() && full[k] == x;
                    if k < old_len {
                        assert(old_seq[k] == x);
                    }
                    assert(fresh[k - old_len] == x);
                }
            }
            assert forall|x: Seq<Seq<char>>| fresh.to_set().contains(x) implies names.to_set().contains(x) by {
                let k = choose|k: int| 0 <= k < fresh.len() && fresh[k] == x;
                assert(full[old_len + k] == x);
                assert(full.to_set().contains(x));
                if old_set.contains(x) {
                    let l = choose|l: int| 0 <= l < old_seq.len() && old_seq[l] == x;
                    assert(full[l] == x);
                }
            }
            assert(id_views(kept@).to_set() =~= names.to_set());
        }
        self.live = kept;
        changes
    }
}

/// Once a frame has been brought on show, bringing the same frame again creates
/// nothing and removes nothing: every object of it is an update.
pub proof fn lemma_update_twice(names: Seq<Seq<Seq<char>>>, p: PaletteView)
    ensures
        forall|n: int| 0 <= n < names.len() ==> !is_new_at(names.to_set(), names, n)
            && (#[trigger] frame_change(names.to_set(), names, p, n)) is Update,
        gone(names.to_set(), names) == Set::<Seq<Seq<char>>>::empty(),
{
    assert forall|n: int| 0 <= n < names.len() implies !is_new_at(names.to_set(), names, n)
        && (#[trigger] frame_change(names.to_set(), names, p, n)) is Update by {
        assert(names.to_set().contains(names[n]));
    }
    assert(gone(names.to_set(), names) =~= Set::<Seq<Seq<char>>>::empty());
}

} // verus!
