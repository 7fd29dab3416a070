//! Colors for objects, chosen by (part of) their identity.
use vstd::prelude::*;

use crate::objects::ObjectID;

verus! {

/// An RGB color.
#[derive(PartialEq, Eq, Structural, PartialOrd, Ord, Hash, Clone, Copy, Debug)]
pub struct Color(pub u8, pub u8, pub u8);

/// The colors handed out, in turn, when no others are configured: green, purple,
/// orange, red, blue, brown, pink, gray, yellow, white and black.
pub open spec fn default_color_seq() -> Seq<Color> {
    seq![
        Color(77, 175, 74),
        Color(152, 78, 163),
        Color(255, 127, 0),
        Color(228, 26, 28),
        Color(55, 126, 184),
        Color(166, 86, 40),
        Color(247, 129, 191),
        Color(153, 153, 153),
        Color(255, 255, 51),
        Color(255, 255, 255),
        Color(0, 0, 0),
    ]
}

/// The colors of [`default_color_seq`], in order.
pub fn default_colors() -> (r: Vec<Color>)
    ensures
        r@ == default_color_seq(),
{
    let r = vec![
        Color(77, 175, 74),
        Color(152, 78, 163),
        Color(255, 127, 0),
        Color(228, 26, 28),
        Color(55, 126, 184),
        Color(166, 86, 40),
        Color(247, 129, 191),
        Color(153, 153, 153),
        Color(255, 255, 51),
        Color(255, 255, 255),
        Color(0, 0, 0),
    ];
    assert(r@ =~= default_color_seq());
    r
}

/// The items among the first `n` whose place in `mask` is set, in order.
pub open spec fn masked_prefix<A>(mask: Seq<bool>, items: Seq<A>, n: int) -> Seq<A>
    decreases n,
{
    if n <= 0 {
        Seq::empty()
    } else {
        let rest = masked_prefix(mask, items, n - 1);
        if mask[n - 1] {
            rest.push(items[n - 1])
        } else {
            rest
        }
    }
}

/// The items whose place in `mask` is set; items past the end of the mask, and
/// places of the mask past the end of the items, are left out.
pub open spec fn masked<A>(mask: Seq<bool>, items: Seq<A>) -> Seq<A> {
    masked_prefix(mask, items, if mask.len() < items.len() { mask.len() as int } else { items.len() as int })
}

/// The decimal digit `d`, for `0 <= d < 10`.
pub open spec fn digit_char(d: int) -> char {
    ((48 + d) as u32) as char
}

/// One character per level of `mask`: the last digit of the level's number, counted
/// from one, where the level is set, and `_` where it is not.
pub open spec fn mask_string(mask: Seq<bool>) -> Seq<char> {
    Seq::new(mask.len(), |i: int| if mask[i] { digit_char((i + 1) % 10) } else { '_' })
}

/// Relies on `String::push`: the character is appended at the end.
#[verifier::external_body]
fn push_char(s: &mut String, c: char)
    ensures
        final(s)@ == old(s)@.push(c),
{
    s.push(c)
}

/// Which levels of an [`ObjectID`] take part in choosing a color.
#[derive(Debug, Eq, PartialOrd, Ord, Hash)]
pub struct PartialIDer {
    /// One entry per level: whether that level is used.
    pub bools: Vec<bool>,
}

impl PartialIDer {
    /// A mask of `n` levels, each set to `value`.
    pub fn new(n: usize, value: bool) -> (r: PartialIDer)
        ensures
            r.bools@ == Seq::new(n as nat, |i: int| value),
    {
        let mut bools: Vec<bool> = Vec::new();
        let mut i: usize = 0;
        while i < n
            invariant
                i <= n,
                bools@ == Seq::new(i as nat, |j: int| value),
            decreases n - i,
        {
            bools.push(value);
            i += 1;
            assert(bools@ =~= Seq::new(i as nat, |j: int| value));
        }
        PartialIDer { bools }
    }

    /// Whether the mask has no levels at all.
    pub fn is_empty(&self) -> (r: bool)
        ensures
            r == (self.bools@.len() == 0),
    {
        self.bools.len() == 0
    }

    /// The names of `name` at the levels that the mask selects, borrowed from it.
    pub fn partial<'a>(&self, name: &'a ObjectID) -> (r: Vec<&'a str>)
        ensures
            r@.map_values(|s: &str| s@) == masked(self.bools@, name@),
    {
        let n: usize = if self.bools.len() < name.0.len() { self.bools.len() } else { name.0.len() };
        let mut r: Vec<&'a str> = Vec::new();
        let mut i: usize = 0;
        while i < n
            invariant
                i <= n,
                n == (if self.bools@.len() < name.0@.len() { self.bools@.len() } else { name.0@.len() }),
                r@.map_values(|s: &str| s@) == masked_prefix(self.bools@, name@, i as int),
            decreases n - i,
        {
            if self.bools[i] {
                r.push(name.0[i].as_str());
            }
            i += 1;
            assert(r@.map_values(|s: &str| s@) =~= masked_prefix(self.bools@, name@, i as int));
        }
        r
    }

    /// The identity made of the names of `name` at the levels that the mask selects.
    pub fn as_id(&self, name: &ObjectID) -> (r: ObjectID)
        ensures
            r@ == masked(self.bools@, name@),
    {
        let n: usize = if self.bools.len() < name.0.len() { self.bools.len() } else { name.0.len() };
        let mut names: Vec<String> = Vec::new();
        let mut i: usize = 0;
        while i < n
            invariant
                i <= n,
                n == (if self.bools@.len() < name.0@.len() { self.bools@.len() } else { name.0@.len() }),
                names@.map_values(|s: String| s@) == masked_prefix(self.bools@, name@, i as int),
            decreases n - i,
        {
            if self.bools[i] {
                names.push(name.0[i].clone());
            }
            i += 1;
            assert(names@.map_values(|s: String| s@) =~= masked_prefix(self.bools@, name@, i as int));
        }
        ObjectID(names)
    }

    /// A status line for the mask, such as `_23____`: see [`mask_string`].
    pub fn as_string(&self) -> (r: String)
        ensures
            r@ == mask_string(self.bools@),
    {
        let mut s = String::new();
        let mut i: usize = 0;
        while i < self.bools.len()
            invariant
                i <= self.bools@.len(),
                s@ == mask_string(self.bools@).take(i as int),
            decreases self.bools.len() - i,
        {
            let c: char = if self.bools[i] {
                ((48 + ((i % 10 + 1) % 10)) as u8) as char
            } else {
                '_'
            };
            assert(c == mask_string(self.bools@)[i as int]);
            push_char(&mut s, c);
            i += 1;
            assert(s@ =~= mask_string(self.bools@).take(i as int));
        }
        assert(s@ =~= mask_string(self.bools@));
        s
    }
}

impl PartialEq for PartialIDer {
    fn eq(&self, other: &PartialIDer) -> (r: bool) {
        if self.bools.len() != other.bools.len() {
            return false;
        }
        let mut i: usize = 0;
        while i < self.bools.len()
            invariant
                i <= self.bools@.len() == other.bools@.len(),
                forall|j: int| 0 <= j < i ==> self.bools@[j] == other.bools@[j],
            decreases self.bools.len() - i,
        {
            if self.bools[i] != other.bools[i] {
                return false;
            }
            i += 1;
        }
        assert(self.bools@ =~= other.bools@);
        true
    }
}

impl vstd::std_specs::cmp::PartialEqSpecImpl for PartialIDer {
    open spec fn obeys_eq_spec() -> bool {
        true
    }

    open spec fn eq_spec(&self, other: &PartialIDer) -> bool {
        self.bools@ == other.bools@
    }
}

impl Clone for PartialIDer {
    fn clone(&self) -> (r: PartialIDer)
        ensures
            r.bools@ == self.bools@,
    {
        let mut bools: Vec<bool> = Vec::new();
        let mut i: usize = 0;
        while i < self.bools.len()
            invariant
                i <= self.bools@.len(),
                bools@ == self.bools@.take(i as int),
            decreases self.bools.len() - i,
        {
            bools.push(self.bools[i]);
            i += 1;
            assert(bools@ =~= self.bools@.take(i as int));
        }
        assert(bools@ =~= self.bools@);
        PartialIDer { bools }
    }
}

/// One entry of a [`ColorMap`]: an identity and its color.
#[derive(Debug)]
pub struct Assignment {
    /// The (partial) identity.
    pub names: ObjectID,
    /// Its color.
    pub color: Color,
}

impl Clone for Assignment {
    fn clone(&self) -> (r: Assignment)
        ensures
            r.names@ == self.names@,
            r.color == self.color,
    {
        Assignment { names: self.names.clone(), color: self.color }
    }
}

/// The map that a list of assignments describes: where an identity occurs more
/// than once, its last color counts.
pub open spec fn assignment_map(s: Seq<Assignment>) -> Map<Seq<Seq<char>>, Color>
    decreases s.len(),
{
    if s.len() == 0 {
        Map::empty()
    } else {
        assignment_map(s.drop_last()).insert(s.last().names@, s.last().color)
    }
}

/// No identity occurs twice in the list.
pub open spec fn keys_unique(s: Seq<Assignment>) -> bool {
    forall|i: int, j: int| 0 <= i < j < s.len() ==> s[i].names@ != s[j].names@
}

proof fn lemma_map_contains(s: Seq<Assignment>, k: Seq<Seq<char>>)
    ensures
        assignment_map(s).dom().finite(),
        assignment_map(s).contains_key(k) <==> exists|i: int| 0 <= i < s.len() && s[i].names@ == k,
    decreases s.len(),
{
    if s.len() > 0 {
        lemma_map_contains(s.drop_last(), k);
        if assignment_map(s).contains_key(k) && k != s.last().names@ {
            let i = choose|i: int| 0 <= i < s.drop_last().len() && s.drop_last()[i].names@ == k;
            assert(s[i].names@ == k);
        }
        if exists|i: int| 0 <= i < s.len() && s[i].names@ == k {
            let i = choose|i: int| 0 <= i < s.len() && s[i].names@ == k;
            if i < s.len() - 1 {
                assert(s.drop_last()[i].names@ == k);
            }
        }
    }
}

proof fn lemma_map_value(s: Seq<Assignment>, i: int)
    requires
        0 <= i < s.len(),
        forall|j: int| i < j < s.len() ==> s[j].names@ != s[i].names@,
    ensures
        assignment_map(s).contains_key(s[i].names@),
        assignment_map(s)[s[i].names@] == s[i].color,
    decreases s.len(),
{
    if i < s.len() - 1 {
        assert(s.drop_last()[i] == s[i]);
        lemma_map_value(s.drop_last(), i);
    }
}

proof fn lemma_map_last(s: Seq<Assignment>, k: Seq<Seq<char>>) -> (j: int)
    requires
        assignment_map(s).contains_key(k),
    ensures
        0 <= j < s.len(),
        s[j].names@ == k,
        forall|l: int| j < l < s.len() ==> s[l].names@ != k,
        assignment_map(s)[k] == s[j].color,
    decreases s.len(),
{
    if s.last().names@ == k {
        (s.len() - 1) as int
    } else {
        let j = lemma_map_last(s.drop_last(), k);
        assert(s[j] == s.drop_last()[j]);
        assert forall|l: int| j < l < s.len() implies s[l].names@ != k by {
            if l < s.len() - 1 {
                assert(s[l] == s.drop_last()[l]);
            }
        }
        j
    }
}

proof fn lemma_map_len(s: Seq<Assignment>)
    requires
        keys_unique(s),
    ensures
        assignment_map(s).dom().len() == s.len(),
    decreases s.len(),
{
    if s.len() > 0 {
        lemma_map_len(s.drop_last());
        lemma_map_contains(s.drop_last(), s.last().names@);
        lemma_map_contains(s, s.last().names@);
    }
}

spec fn has_same_entry(a: Map<Seq<Seq<char>>, Color>, b: Map<Seq<Seq<char>>, Color>, k: Seq<Seq<char>>) -> bool {
    a.contains_key(k) && b.contains_key(k) && a[k] == b[k]
}

/// A finite map from (partial) identities to colors.
#[derive(Debug)]
pub struct ColorMap {
    entries: Vec<Assignment>,
}

impl View for ColorMap {
    type V = Map<Seq<Seq<char>>, Color>;

    closed spec fn view(&self) -> Map<Seq<Seq<char>>, Color> {
        assignment_map(self.entries@)
    }
}

impl ColorMap {
    /// No identity is stored twice.
    pub closed spec fn wf(&self) -> bool {
        keys_unique(self.entries@)
    }

    /// The empty map.
    pub fn new() -> (r: ColorMap)
        ensures
            r.wf(),
            r@ == Map::<Seq<Seq<char>>, Color>::empty(),
    {
        ColorMap { entries: Vec::new() }
    }

    /// The number of identities in the map.
    pub fn len(&self) -> (r: usize)
        requires
            self.wf(),
        ensures
            r == self@.dom().len(),
            self@.dom().finite(),
    {
        proof {
            lemma_map_len(self.entries@);
            lemma_map_contains(self.entries@, Seq::empty());
        }
        self.entries.len()
    }

    /// The index of the last entry for `key`.
    fn position(&self, key: &ObjectID) -> (r: Option<usize>)
        ensures
            match r {
                Some(i) => i < self.entries@.len() && self.entries@[i as int].names@ == key@
                    && forall|j: int| i < j < self.entries@.len() ==> self.entries@[j].names@ != key@,
                None => forall|j: int| 0 <= j < self.entries@.len() ==> self.entries@[j].names@ != key@,
            },
    {
        let mut i: usize = self.entries.len();
        while i > 0
            invariant
                i <= self.entries@.len(),
                forall|j: int| i <= j < self.entries@.len() ==> self.entries@[j].names@ != key@,
            decreases i,
        {
            if self.entries[i - 1].names.same_as(key) {
                return Some(i - 1);
            }
            i -= 1;
        }
        None
    }

    /// The color of `key`, if it has one.
    pub fn get(&self, key: &ObjectID) -> (r: Option<Color>)
        ensures
            r == (if self@.contains_key(key@) { Some(self@[key@]) } else { None::<Color> }),
            self@.dom().finite(),
    {
        proof {
            lemma_map_contains(self.entries@, key@);
        }
        match self.position(key) {
            Some(i) => {
                proof {
                    lemma_map_value(self.entries@, i as int);
                }
                Some(self.entries[i].color)
            },
            None => None,
        }
    }

    /// Gives `key` the color `color`, in place of any it had.
    pub fn insert(&mut self, key: ObjectID, color: Color)
        ensures
            old(self).wf() ==> final(self).wf(),
            final(self)@ == old(self)@.insert(key@, color),
            final(self)@.dom().finite(),
    {
        let ghost old_entries = self.entries@;
        let a = Assignment { names: key, color };
        match self.position(&a.names) {
            Some(i) => {
                let ghost k = a.names@;
                self.entries.set(i, a);
                proof {
                    let s = self.entries@;
                    let m = assignment_map(old_entries).insert(k, color);
                    assert forall|q: Seq<Seq<char>>| #![auto]
                        assignment_map(s).contains_key(q) == m.contains_key(q)
                    by {
                        lemma_map_contains(s, q);
                        lemma_map_contains(old_entries, q);
                        if q == k {
                            assert(s[i as int].names@ == q);
                        } else {
                            if exists|j: int| 0 <= j < old_entries.len() && old_entries[j].names@ == q {
                                let j = choose|j: int| 0 <= j < old_entries.len() && old_entries[j].names@ == q;
                                assert(s[j].names@ == q);
                            }
                            if exists|j: int| 0 <= j < s.len() && s[j].names@ == q {
                                let j = choose|j: int| 0 <= j < s.len() && s[j].names@ == q;
                                assert(old_entries[j].names@ == q);
                            }
                        }
                    }
                    assert forall|q: Seq<Seq<char>>| #[trigger] assignment_map(s).contains_key(q)
                        implies assignment_map(s)[q] == m[q]
                    by {
                        if q == k {
                            lemma_map_value(s, i as int);
                        } else {
                            let j = lemma_map_last(s, q);
                            assert(old_entries[j] == s[j]);
                            assert forall|l: int| j < l < old_entries.len()
                                implies old_entries[l].names@ != old_entries[j].names@ by {
                                if l != i {
                                    assert(old_entries[l] == s[l]);
                                }
                            }
                            lemma_map_value(old_entries, j);
                        }
                    }
                    assert(assignment_map(s) =~= m);
                    lemma_map_contains(s, k);
                }
            },
            None => {
                self.entries.push(a);
                proof {
                    assert(self.entries@.drop_last() =~= old_entries);
                    lemma_map_contains(self.entries@, a.names@);
                }
            },
        }
    }

    /// Removes every identity.
    pub fn clear(&mut self)
        ensures
            final(self).wf(),
            final(self)@ == Map::<Seq<Seq<char>>, Color>::empty(),
    {
        self.entries = Vec::new();
    }

    /// Whether every entry of `self` is an entry of `other`.
    fn within(&self, other: &ColorMap) -> (r: bool)
        ensures
            r == (forall|q: Seq<Seq<char>>| #[trigger] self@.contains_key(q)
                ==> other@.contains_key(q) && other@[q] == self@[q]),
    {
        let mut i: usize = 0;
        while i < self.entries.len()
            invariant
                i <= self.entries@.len(),
                forall|j: int| 0 <= j < i ==> has_same_entry(self@, other@, #[trigger] self.entries@[j].names@),
            decreases self.entries.len() - i,
        {
            let mine = self.get(&self.entries[i].names);
            let theirs = other.get(&self.entries[i].names);
            proof {
                lemma_map_contains(self.entries@, self.entries@[i as int].names@);
            }
            let found = match (mine, theirs) {
                (Some(c), Some(d)) => c == d,
                _ => false,
            };
            if !found {
                return false;
            }
            assert(has_same_entry(self@, other@, self.entries@[i as int].names@));
            i += 1;
        }
        proof {
            let s = self.entries@;
            assert forall|q: Seq<Seq<char>>| #[trigger] self@.contains_key(q)
                implies other@.contains_key(q) && other@[q] == self@[q] by {
                lemma_map_contains(s, q);
                let j = choose|j: int| 0 <= j < s.len() && s[j].names@ == q;
                assert(has_same_entry(self@, other@, s[j].names@));
            }
        }
        true
    }

    /// Whether the two maps hold the same identities with the same colors.
    pub fn same_as(&self, other: &ColorMap) -> (r: bool)
        ensures
            r == (self@ == other@),
    {
        let r = self.within(other) && other.within(self);
        proof {
            if r {
                assert(self@ =~= other@);
            }
        }
        r
    }
}

/// The entries of `assigned`, one per identity, in no particular order.
pub fn to_assignments(assigned: &ColorMap) -> (r: Vec<Assignment>)
    requires
        assigned.wf(),
    ensures
        assignment_map(r@) == assigned@,
        r@.len() == assigned@.dom().len(),
{
    proof {
        lemma_map_len(assigned.entries@);
    }
    let mut r: Vec<Assignment> = Vec::new();
    let mut i: usize = 0;
    while i < assigned.entries.len()
        invariant
            i <= assigned.entries@.len(),
            r@.len() == i,
            forall|j: int| 0 <= j < i ==> #[trigger] r@[j].names@ == assigned.entries@[j].names@
                && r@[j].color == assigned.entries@[j].color,
        decreases assigned.entries.len() - i,
    {
        r.push(assigned.entries[i].clone());
        i += 1;
    }
    proof {
        lemma_same_map(r@, assigned.entries@);
    }
    r
}

proof fn lemma_same_map(a: Seq<Assignment>, b: Seq<Assignment>)
    requires
        a.len() == b.len(),
        forall|j: int| 0 <= j < a.len() ==> #[trigger] a[j].names@ == b[j].names@ && a[j].color == b[j].color,
    ensures
        assignment_map(a) == assignment_map(b),
    decreases a.len(),
{
    if a.len() > 0 {
        assert forall|j: int| 0 <= j < a.len() - 1 implies #[trigger] a.drop_last()[j].names@ == b.drop_last()[j].names@
            && a.drop_last()[j].color == b.drop_last()[j].color by {
            assert(a[j].names@ == b[j].names@);
        }
        lemma_same_map(a.drop_last(), b.drop_last());
        assert(a.last().names@ == b.last().names@);
    }
}

/// The map that `assigned` describes: where an identity occurs more than once,
/// its last color counts.
pub fn from_assignments(assigned: Vec<Assignment>) -> (r: ColorMap)
    ensures
        r.wf(),
        r@ == assignment_map(assigned@),
        r@.dom().finite(),
{
    let mut r = ColorMap::new();
    let mut i: usize = 0;
    while i < assigned.len()
        invariant
            i <= assigned@.len(),
            r.wf(),
            r@ == assignment_map(assigned@.take(i as int)),
        decreases assigned.len() - i,
    {
        r.insert(assigned[i].names.clone(), assigned[i].color);
        proof {
            assert(assigned@.take(i + 1).drop_last() =~= assigned@.take(i as int));
        }
        i += 1;
    }
    proof {
        assert(assigned@.take(assigned@.len() as int) =~= assigned@);
        lemma_map_contains(assigned@, Seq::empty());
    }
    r
}

/// What a [`Palette`] holds, as mathematical values.
pub ghost struct PaletteView {
    /// The colors handed out in turn.
    pub default_colors: Seq<Color>,
    /// Which levels of an identity take part in choosing its color.
    pub partials: Seq<bool>,
    /// The colors fixed so far, by partial identity.
    pub assigned: Map<Seq<Seq<char>>, Color>,
    /// The place in `default_colors` of the next color to hand out.
    pub next_color: nat,
}

impl PaletteView {
    /// There is a color to hand out, `next_color` points at one, and finitely many
    /// colors are fixed.
    pub open spec fn valid(self) -> bool {
        &&& self.default_colors.len() > 0
        &&& self.next_color < self.default_colors.len()
        &&& self.assigned.dom().finite()
    }

    /// The partial identity under which `name` is colored.
    pub open spec fn key_of(self, name: Seq<Seq<char>>) -> Seq<Seq<char>> {
        masked(self.partials, name)
    }

    /// The color that `name` gets: the one fixed for its partial identity, else the
    /// next one in turn.
    pub open spec fn color_for(self, name: Seq<Seq<char>>) -> Color {
        let k = self.key_of(name);
        if self.assigned.contains_key(k) {
            self.assigned[k]
        } else {
            self.default_colors[self.next_color as int]
        }
    }

    /// The palette once `name` has been colored: a partial identity seen for the first
    /// time keeps the color it got, and the turn moves on by one, round the list.
    pub open spec fn after_color(self, name: Seq<Seq<char>>) -> PaletteView {
        let k = self.key_of(name);
        if self.assigned.contains_key(k) {
            self
        } else {
            PaletteView {
                assigned: self.assigned.insert(k, self.default_colors[self.next_color as int]),
                next_color: ((self.next_color + 1) % self.default_colors.len()) as nat,
                ..self
            }
        }
    }

    /// The palette with the mask `partials`, handing out colors from the first one
    /// again; colors fixed so far stay.
    pub open spec fn with_mask(self, partials: Seq<bool>) -> PaletteView {
        PaletteView { partials, next_color: 0, ..self }
    }
}

/// The palette used when none is configured: the default colors, all of eight
/// levels in the mask, nothing assigned yet.
pub open spec fn default_palette_view() -> PaletteView {
    PaletteView {
        default_colors: default_color_seq(),
        partials: Seq::new(8, |i: int| true),
        assigned: Map::empty(),
        next_color: 0,
    }
}

/// Turns identities into colors, so that objects that share the selected levels of
/// their identity share a color, and keep it from frame to frame.
#[derive(Debug)]
pub struct Palette {
    default_colors: Vec<Color>,
    partials: PartialIDer,
    assigned: ColorMap,
    next_color: usize,
}

impl View for Palette {
    type V = PaletteView;

    closed spec fn view(&self) -> PaletteView {
        PaletteView {
            default_colors: self.default_colors@,
            partials: self.partials.bools@,
            assigned: self.assigned@,
            next_color: self.next_color as nat,
        }
    }
}

impl Palette {
    /// The palette is usable: see [`PaletteView::valid`].
    pub open spec fn wf(&self) -> bool {
        self.stores_well() && self@.valid()
    }

    /// No identity is stored twice among the fixed colors.
    pub closed spec fn stores_well(&self) -> bool {
        self.assigned.wf()
    }

    /// The color for `name`, under the current mask: the one its partial identity
    /// already has, else the next default color, which it keeps from then on.
    pub fn get_color(&mut self, name: &ObjectID) -> (r: Color)
        requires
            old(self).wf(),
        ensures
            final(self).wf(),
            r == old(self)@.color_for(name@),
            final(self)@ == old(self)@.after_color(name@),
    {
        let partial = self.partials.as_id(name);
        match self.assigned.get(&partial) {
            Some(c) => c,
            None => {
                let len = self.default_colors.len();
                assert(self.next_color < len);
                let col = self.default_colors[self.next_color];
                self.next_color = (self.next_color + 1) % len;
                self.assigned.insert(partial, col);
                col
            },
        }
    }

    /// Flips level `n` of the mask, and starts handing out colors from the first one
    /// again; a level past the end of the mask changes nothing.
    pub fn toggle_partial(&mut self, n: usize)
        requires
            old(self).wf(),
        ensures
            final(self).wf(),
            final(self)@ == (if n < old(self)@.partials.len() {
                old(self)@.with_mask(old(self)@.partials.update(n as int, !old(self)@.partials[n as int]))
            } else {
                old(self)@
            }),
    {
        if n >= self.partials.bools.len() {
            return;
        }
        let b = self.partials.bools[n];
        self.partials.bools.set(n, !b);
        self.next_color = 0;
    }

    /// Whether level `n` of the mask is set.
    pub fn get_partial(&self, n: usize) -> (r: bool)
        requires
            n < self@.partials.len(),
        ensures
            r == self@.partials[n as int],
    {
        self.partials.bools[n]
    }

    /// Sets level `n` of the mask to `value`, and starts handing out colors from the
    /// first one again; a level past the end of the mask changes nothing.
    pub fn set_partial(&mut self, n: usize, value: bool)
        requires
            old(self).wf(),
        ensures
            final(self).wf(),
            final(self)@ == (if n < old(self)@.partials.len() {
                old(self)@.with_mask(old(self)@.partials.update(n as int, value))
            } else {
                old(self)@
            }),
    {
        if n >= self.partials.bools.len() {
            return;
        }
        self.partials.bools.set(n, value);
        self.next_color = 0;
    }

    /// Sets every level of the mask to `value`, and starts handing out colors from the
    /// first one again.
    pub fn set_all_partial(&mut self, value: bool)
        requires
            old(self).wf(),
        ensures
            final(self).wf(),
            final(self)@ == old(self)@.with_mask(Seq::new(old(self)@.partials.len(), |i: int| value)),
    {
        let n = self.partials.bools.len();
        let mut i: usize = 0;
        while i < n
            invariant
                i <= n == self.partials.bools@.len(),
                forall|j: int| 0 <= j < i ==> self.partials.bools@[j] == value,
                forall|j: int| i <= j < n ==> self.partials.bools@[j] == old(self)@.partials[j],
                old(self)@.partials.len() == n,
                self.default_colors@ == old(self)@.default_colors,
                self.assigned@ == old(self)@.assigned,
                self.assigned.wf() == old(self).assigned.wf(),
                self.next_color == old(self).next_color,
            decreases n - i,
        {
            self.partials.bools.set(i, value);
            i += 1;
        }
        self.next_color = 0;
        assert(self@.partials =~= Seq::new(old(self)@.partials.len(), |i: int| value));
        assert(self@ == old(self)@.with_mask(Seq::new(old(self)@.partials.len(), |i: int| value)));
    }

    /// A status line for the mask, such as `_23____`: see [`mask_string`].
    pub fn partials_string(&self) -> (r: String)
        ensures
            r@ == mask_string(self@.partials),
    {
        self.partials.as_string()
    }

    /// Forgets every color fixed so far; the mask and the turn stay.
    pub fn clear_assignments(&mut self)
        requires
            old(self).wf(),
        ensures
            final(self).wf(),
            final(self)@ == (PaletteView { assigned: Map::empty(), ..old(self)@ }),
    {
        self.assigned.clear();
    }

    /// Fixes the color of the partial identity `names`, in place of any it had.
    pub fn assign(&mut self, names: ObjectID, color: Color)
        requires
            old(self).wf(),
        ensures
            final(self).wf(),
            final(self)@ == (PaletteView { assigned: old(self)@.assigned.insert(names@, color), ..old(self)@ }),
    {
        self.assigned.insert(names, color);
    }

    /// The colors fixed so far.
    pub fn assigned(&self) -> (r: &ColorMap)
        requires
            self.wf(),
        ensures
            r.wf(),
            r@ == self@.assigned,
    {
        &self.assigned
    }
}

impl Default for Palette {
    fn default() -> (r: Palette)
        ensures
            r.wf(),
            r@ == default_palette_view(),
    {
        let p = Palette {
            default_colors: default_colors(),
            partials: PartialIDer::new(8, true),
            assigned: ColorMap::new(),
            next_color: 0,
        };
        assert(p@ == default_palette_view());
        p
    }
}

impl PartialEq for Palette {
    fn eq(&self, other: &Palette) -> (r: bool) {
        let mut same = self.default_colors.len() == other.default_colors.len();
        let mut i: usize = 0;
        while same && i < self.default_colors.len()
            invariant
                i <= self.default_colors@.len(),
                same ==> self.default_colors@.len() == other.default_colors@.len(),
                same ==> forall|j: int| 0 <= j < i ==> self.default_colors@[j] == other.default_colors@[j],
                !same ==> self.default_colors@ != other.default_colors@,
            decreases self.default_colors.len() - i,
        {
            if self.default_colors[i] != other.default_colors[i] {
                same = false;
            }
            i += 1;
        }
        if same {
            assert(self.default_colors@ =~= other.default_colors@);
        }
        same && self.partials == other.partials && self.assigned.same_as(&other.assigned)
            && self.next_color == other.next_color
    }
}

impl vstd::std_specs::cmp::PartialEqSpecImpl for Palette {
    open spec fn obeys_eq_spec() -> bool {
        true
    }

    open spec fn eq_spec(&self, other: &Palette) -> bool {
        self@ == other@
    }
}

/// A palette in the form in which it is written out: every part of it, with the
/// fixed colors as a list of entries.
#[derive(Debug)]
pub struct PaletteRef {
    /// The colors handed out in turn.
    pub defaults: Vec<Color>,
    /// Which levels of an identity take part in choosing its color.
    pub partials: PartialIDer,
    /// The colors fixed so far, one entry per partial identity.
    pub assigned: Vec<Assignment>,
    /// The place in `defaults` of the next color to hand out.
    pub next_color: usize,
}

impl PaletteRef {
    /// The written-out form of `palette`.
    pub fn from_palette(palette: &Palette) -> (r: PaletteRef)
        requires
            palette.wf(),
        ensures
            r.defaults@ == palette@.default_colors,
            r.partials.bools@ == palette@.partials,
            assignment_map(r.assigned@) == palette@.assigned,
            r.assigned@.len() == palette@.assigned.dom().len(),
            r.next_color == palette@.next_color,
    {
        let mut defaults: Vec<Color> = Vec::new();
        let mut i: usize = 0;
        while i < palette.default_colors.len()
            invariant
                i <= palette.default_colors@.len(),
                defaults@ == palette.default_colors@.take(i as int),
            decreases palette.default_colors.len() - i,
        {
            defaults.push(palette.default_colors[i]);
            i += 1;
            assert(defaults@ =~= palette.default_colors@.take(i as int));
        }
        assert(defaults@ =~= palette.default_colors@);
        PaletteRef {
            defaults,
            partials: palette.partials.clone(),
            assigned: to_assignments(&palette.assigned),
            next_color: palette.next_color,
        }
    }
}

/// The palette that a configuration describes, where each part that is absent takes
/// its value from [`default_palette_view`].
pub open spec fn opt_palette_view(
    default_colors: Option<Seq<Color>>,
    partials: Option<Seq<bool>>,
    assigned: Option<Seq<Assignment>>,
    next_color: Option<nat>,
) -> PaletteView {
    let d = default_palette_view();
    PaletteView {
        default_colors: match default_colors {
            Some(c) => c,
            None => d.default_colors,
        },
        partials: match partials {
            Some(m) => m,
            None => d.partials,
        },
        assigned: match assigned {
            Some(a) => assignment_map(a),
            None => d.assigned,
        },
        next_color: match next_color {
            Some(n) => n,
            None => d.next_color,
        },
    }
}

/// Why a configuration does not describe a usable palette.
#[derive(PartialEq, Eq, Structural, Clone, Copy, Debug)]
pub enum PaletteError {
    /// The list of colors to hand out is empty.
    NoColors,
    /// The next color to hand out lies past the end of the list of colors.
    NextColorOutOfRange,
}

/// A palette as read from a configuration, where each part may be absent.
#[derive(Debug)]
pub struct PaletteOpt {
    /// The colors handed out in turn.
    pub default_colors: Option<Vec<Color>>,
    /// Which levels of an identity take part in choosing its color.
    pub partials: Option<PartialIDer>,
    /// The colors fixed so far; where an identity occurs twice, the last entry counts.
    pub assigned: Option<Vec<Assignment>>,
    /// The place in the colors of the next color to hand out.
    pub next_color: Option<usize>,
}

impl PaletteOpt {
    /// The palette that the configuration describes.
    pub open spec fn spec_palette(&self) -> PaletteView {
        opt_palette_view(
            match self.default_colors {
                Some(c) => Some(c@),
                None => None,
            },
            match self.partials {
                Some(m) => Some(m.bools@),
                None => None,
            },
            match self.assigned {
                Some(a) => Some(a@),
                None => None,
            },
            match self.next_color {
                Some(n) => Some(n as nat),
                None => None,
            },
        )
    }

    /// The palette that the configuration describes, each absent part filled in
    /// from the default palette; an error where that palette is not usable.
    pub fn into_palette(self) -> (r: Result<Palette, PaletteError>)
        ensures
            self.spec_palette().valid() ==> r is Ok,
            match r {
                Ok(p) => p.wf() && p@ == self.spec_palette(),
                Err(PaletteError::NoColors) => self.spec_palette().default_colors.len() == 0,
                Err(PaletteError::NextColorOutOfRange) => self.spec_palette().default_colors.len() > 0
                    && self.spec_palette().next_color >= self.spec_palette().default_colors.len(),
            },
    {
        let ghost v = self.spec_palette();
        let default_colors = match self.default_colors {
            Some(c) => c,
            None => default_colors(),
        };
        let partials = match self.partials {
            Some(m) => m,
            None => PartialIDer::new(8, true),
        };
        let assigned = match self.assigned {
            Some(a) => from_assignments(a),
            None => ColorMap::new(),
        };
        let next_color: usize = match self.next_color {
            Some(n) => n,
            None => 0,
        };
        if default_colors.len() == 0 {
            return Err(PaletteError::NoColors);
        }
        if next_color >= default_colors.len() {
            return Err(PaletteError::NextColorOutOfRange);
        }
        let p = Palette { default_colors, partials, assigned, next_color };
        assert(p@.partials =~= v.partials);
        assert(p@ == v);
        Ok(p)
    }
}

/// Writing a palette out and reading it back gives the same palette.
pub proof fn lemma_palette_round_trip(p: PaletteView, assigned: Seq<Assignment>)
    requires
        p.valid(),
        assignment_map(assigned) == p.assigned,
    ensures
        opt_palette_view(Some(p.default_colors), Some(p.partials), Some(assigned), Some(p.next_color)) == p,
        opt_palette_view(Some(p.default_colors), Some(p.partials), Some(assigned), Some(p.next_color)).valid(),
{
}

/// A configuration with nothing in it describes the default palette.
pub proof fn lemma_empty_config_is_default()
    ensures
        opt_palette_view(None, None, None, None) == default_palette_view(),
        default_palette_view().valid(),
{
    assert(default_palette_view().default_colors.len() == 11);
}

/// Asking twice for the color of one name, with the mask unchanged, gives the same
/// color, and the second time changes nothing.
pub proof fn lemma_color_stable(p: PaletteView, name: Seq<Seq<char>>)
    requires
        p.valid(),
    ensures
        p.after_color(name).color_for(name) == p.color_for(name),
        p.after_color(name).after_color(name) == p.after_color(name),
        p.after_color(name).valid(),
{
}

/// The palette once the first `n` of `names` have been colored, in order.
pub open spec fn palette_after(p: PaletteView, names: Seq<Seq<Seq<char>>>, n: int) -> PaletteView
    decreases n,
{
    if n <= 0 {
        p
    } else {
        palette_after(p, names, n - 1).after_color(names[n - 1])
    }
}

/// The color that `names[n]` gets when `names` are colored in order.
pub open spec fn color_at(p: PaletteView, names: Seq<Seq<Seq<char>>>, n: int) -> Color {
    palette_after(p, names, n).color_for(names[n])
}

proof fn lemma_colors_in_turn(p: PaletteView, names: Seq<Seq<Seq<char>>>, k: int)
    requires
        p.valid(),
        0 <= k <= names.len(),
        forall|i: int| 0 <= i < names.len() ==> !p.assigned.contains_key(#[trigger] p.key_of(names[i])),
        forall|i: int, j: int| 0 <= i < j < names.len() ==> p.key_of(names[i]) != p.key_of(names[j]),
    ensures
        palette_after(p, names, k).default_colors == p.default_colors,
        palette_after(p, names, k).partials == p.partials,
        palette_after(p, names, k).next_color == (p.next_color + k) % (p.default_colors.len() as int),
        forall|q: Seq<Seq<char>>| #[trigger] palette_after(p, names, k).assigned.contains_key(q)
            ==> p.assigned.contains_key(q) || exists|m: int| 0 <= m < k && q == p.key_of(names[m]),
        forall|m: int| 0 <= m < k ==> #[trigger] color_at(p, names, m)
            == p.default_colors[(p.next_color + m) % (p.default_colors.len() as int)],
    decreases k,
{
    let len = p.default_colors.len() as int;
    if k == 0 {
        vstd::arithmetic::div_mod::lemma_small_mod(p.next_color, len as nat);
    } else {
        lemma_colors_in_turn(p, names, k - 1);
        let before = palette_after(p, names, k - 1);
        let key = p.key_of(names[k - 1]);
        assert(before.key_of(names[k - 1]) == key);
        if before.assigned.contains_key(key) {
            if !p.assigned.contains_key(key) {
                let m = choose|m: int| 0 <= m < k - 1 && key == p.key_of(names[m]);
                assert(p.key_of(names[m]) != p.key_of(names[k - 1]));
            }
        }
        assert(!before.assigned.contains_key(key));
        vstd::arithmetic::div_mod::lemma_add_mod_noop(p.next_color + k - 1, 1, len);
        vstd::arithmetic::div_mod::lemma_mod_twice(p.next_color + k - 1, len);
        if len > 1 {
            vstd::arithmetic::div_mod::lemma_small_mod(1, len as nat);
        } else {
            vstd::arithmetic::div_mod::lemma_mod_self_0(1);
            assert((p.next_color + k) % 1 == 0);
            assert((p.next_color + k - 1) % 1 == 0);
        }
        let after = palette_after(p, names, k);
        assert forall|q: Seq<Seq<char>>| #[trigger] after.assigned.contains_key(q)
            implies p.assigned.contains_key(q) || exists|m: int| 0 <= m < k && q == p.key_of(names[m]) by {
            if q != key && !p.assigned.contains_key(q) {
                assert(before.assigned.contains_key(q));
                let m = choose|m: int| 0 <= m < k - 1 && q == p.key_of(names[m]);
                assert(0 <= m < k && q == p.key_of(names[m]));
            }
        }
        assert forall|m: int| 0 <= m < k implies #[trigger] color_at(p, names, m)
            == p.default_colors[(p.next_color + m) % len] by {
            if m < k - 1 {
                assert(color_at(p, names, m) == p.default_colors[(p.next_color + m) % len]);
            }
        }
    }
}

/// Names whose partial identities differ from each other and have no color yet get
/// different colors, as long as there are no more of them than distinct colors to
/// hand out; after that, the colors come round again.
pub proof fn lemma_fresh_colors_differ(p: PaletteView, names: Seq<Seq<Seq<char>>>)
    requires
        p.valid(),
        p.default_colors.no_duplicates(),
        names.len() <= p.default_colors.len(),
        forall|i: int| 0 <= i < names.len() ==> !p.assigned.contains_key(#[trigger] p.key_of(names[i])),
        forall|i: int, j: int| 0 <= i < j < names.len() ==> p.key_of(names[i]) != p.key_of(names[j]),
    ensures
        forall|i: int, j: int| 0 <= i < j < names.len() ==> color_at(p, names, i) != color_at(p, names, j),
{
    let len = p.default_colors.len() as int;
    lemma_colors_in_turn(p, names, names.len() as int);
    assert forall|i: int, j: int| 0 <= i < j < names.len() implies color_at(p, names, i) != color_at(p, names, j) by {
        let a = p.next_color + i;
        let b = p.next_color + j;
        vstd::arithmetic::div_mod::lemma_fundamental_div_mod(a, len);
        vstd::arithmetic::div_mod::lemma_fundamental_div_mod(b, len);
        vstd::arithmetic::div_mod::lemma_mod_pos_bound(a, len);
        vstd::arithmetic::div_mod::lemma_mod_pos_bound(b, len);
        if a % len == b % len {
            assert(false) by (nonlinear_arith)
                requires
                    a == len * (a / len) + a % len,
                    b == len * (b / len) + b % len,
                    a % len == b % len,
                    0 < b - a < len,
            ;
        }
    }
}

} // verus!
