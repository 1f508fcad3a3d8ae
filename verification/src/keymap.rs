use crate::traits::{HasLayout, InnerKeys};
use vstd::prelude::*;
use vstd::std_specs::cmp::PartialEqSpecImpl;

verus! {

/// The number of bit positions of a key word, and of entries of a lookup table.
pub const KEY_BITS: usize = 64;

/// The byte of a display template that stands for the next character of a table.
pub const PLACEHOLDER: u8 = 42;

/// A lookup table that is selected while a combination of modifiers is held.
pub struct Layout {
    /// The groups of modifier bits of which each must have a bit down.
    pub required: Vec<u64>,
    /// The character of each bit position; 0 where the position is unmapped.
    pub table: Vec<u8>,
    /// The display shape that shows this table.
    pub shape: Vec<u8>,
}

/// The tables of one keypad: which bits are modifiers, which of those permit
/// typing, the default table, and the modifier-combination tables in order of
/// precedence.
pub struct Keymap {
    pub modifiers: u64,
    pub text_modifiers: u64,
    /// The display template that the shapes are resolved from.
    pub template: Vec<u8>,
    pub default_table: Vec<u8>,
    pub default_shape: Vec<u8>,
    pub layouts: Vec<Layout>,
}

/// Exactly one bit of `x` is set.
pub open spec fn single_bit(x: u64) -> bool {
    exists|i: u64| i < 64 && x == #[trigger] (1u64 << i)
}

/// The position of the one bit of `x`, where `single_bit(x)`.
pub open spec fn bit_index(x: u64) -> u64 {
    choose|i: u64| i < 64 && x == #[trigger] (1u64 << i)
}

/// The bit at position `j` of `x` is set.
pub open spec fn bit_is_set(x: u64, j: u64) -> bool {
    (x >> j) & 1 == 1
}

/// Every group of `required` has a bit in `mods`.
pub open spec fn holds_all(required: Seq<u64>, mods: u64) -> bool {
    forall|j: int| 0 <= j < required.len() ==> #[trigger] required[j] & mods != 0
}

/// The number of placeholders in a template.
pub open spec fn placeholders(template: Seq<u8>) -> nat
    decreases template.len(),
{
    if template.len() == 0 {
        0
    } else {
        placeholders(template.drop_last()) + if template.last() == PLACEHOLDER {
            1nat
        } else {
            0nat
        }
    }
}

/// The byte at `i` of the shape of `template` over `table`: a literal byte of
/// the template, or the table's next character where the template has a
/// placeholder.
pub open spec fn shape_byte(template: Seq<u8>, table: Seq<u8>, i: int) -> u8 {
    if template[i] == PLACEHOLDER {
        table[placeholders(template.take(i)) as int]
    } else {
        template[i]
    }
}

/// The table after the first `n` characters of `chars` have each been given
/// the bit position that `codes` names for it; a later character replaces an
/// earlier one at the same position, and positions that none takes hold 0.
pub open spec fn scattered(codes: Seq<usize>, chars: Seq<u8>, n: int) -> Seq<u8>
    decreases n,
{
    if n <= 0 {
        Seq::new(KEY_BITS as nat, |p: int| 0u8)
    } else {
        scattered(codes, chars, n - 1).update(codes[n - 1] as int, chars[n - 1])
    }
}

/// The display shape of `table`: `template` with each placeholder replaced by
/// the table's next character.
pub open spec fn resolved(template: Seq<u8>, table: Seq<u8>) -> Seq<u8> {
    Seq::new(template.len(), |i: int| shape_byte(template, table, i))
}

/// Distinct bit positions give distinct one-bit words.
pub proof fn lemma_bit_index_unique(i: u64, j: u64)
    requires
        i < 64,
        j < 64,
        1u64 << i == 1u64 << j,
    ensures
        i == j,
{
    assert(i < 64 && j < 64 && 1u64 << i == 1u64 << j ==> i == j) by (bit_vector);
}

/// In a word with a single bit, the bit at `bit_index` is set and no other.
pub proof fn lemma_single_bit_has_one_bit(x: u64)
    requires
        single_bit(x),
    ensures
        bit_index(x) < 64,
        x == 1u64 << bit_index(x),
        forall|j: u64| j < 64 ==> (#[trigger] bit_is_set(x, j) <==> j == bit_index(x)),
{
    let i = bit_index(x);
    assert forall|j: u64| j < 64 implies (#[trigger] bit_is_set(x, j) <==> j == i) by {
        assert(i < 64 && j < 64 ==> (((1u64 << i) >> j) & 1 == 1 <==> j == i)) by (bit_vector);
    }
}

/// The position of the single bit of `x`, if `x` has exactly one bit set.
pub fn single_bit_index(x: u64) -> (r: Option<u64>)
    ensures
        r is Some <==> single_bit(x),
        r is Some ==> r.unwrap() == bit_index(x) && r.unwrap() < 64 && x == 1u64 << r.unwrap(),
{
    if x != 0 && x & (x - 1) == 0 {
        let at = x.trailing_zeros() as u64;
        proof {
            vstd::std_specs::bits::axiom_u64_trailing_zeros(x);
            assert(x != 0 && x & ((x - 1) as u64) == 0 && at < 64 && (x >> at) & 1 == 1 ==> x == 1u64
                << at) by (bit_vector);
            lemma_bit_index_unique(at, bit_index(x));
        }
        Some(at)
    } else {
        proof {
            assert forall|i: u64| i < 64 implies x != #[trigger] (1u64 << i) by {
                assert(i < 64 && x == 1u64 << i ==> x != 0 && x & ((x - 1) as u64) == 0)
                    by (bit_vector);
            }
        }
        None
    }
}

/// Builds a lookup table from characters in the order in which the keys are
/// declared and the bit position of each key. `None` where the two lists differ
/// in length or a position is not one of a key word.
pub fn make_map(codes: &Vec<usize>, chars: &Vec<u8>) -> (r: Option<Vec<u8>>)
    ensures
        r is Some <==> codes@.len() == chars@.len() && forall|i: int|
            0 <= i < codes@.len() ==> codes@[i] < KEY_BITS,
        r is Some ==> r.unwrap()@ == scattered(codes@, chars@, codes@.len() as int),
{
    if codes.len() != chars.len() {
        return None;
    }
    let mut out: Vec<u8> = Vec::new();
    while out.len() < KEY_BITS
        invariant
            out@.len() <= KEY_BITS,
            forall|p: int| 0 <= p < out@.len() ==> out@[p] == 0,
        decreases KEY_BITS - out@.len(),
    {
        out.push(0);
    }
    assert(out@ =~= scattered(codes@, chars@, 0));
    let mut i: usize = 0;
    while i < codes.len()
        invariant
            i <= codes@.len(),
            codes@.len() == chars@.len(),
            out@.len() == KEY_BITS,
            forall|k: int| 0 <= k < i ==> codes@[k] < KEY_BITS,
            out@ == scattered(codes@, chars@, i as int),
        decreases codes@.len() - i,
    {
        if codes[i] >= KEY_BITS {
            return None;
        }
        out.set(codes[i], chars[i]);
        i += 1;
    }
    Some(out)
}

/// Resolves a display template against a table: literal bytes pass through and
/// each placeholder takes the table's next character. `None` where the template
/// has more placeholders than the table has characters.
pub fn make_layout(table: &Vec<u8>, template: &Vec<u8>) -> (r: Option<Vec<u8>>)
    ensures
        r is Some <==> placeholders(template@) <= table@.len(),
        r is Some ==> r.unwrap()@ == resolved(template@, table@),
{
    let mut out: Vec<u8> = Vec::new();
    let mut i: usize = 0;
    let mut j: usize = 0;
    while i < template.len()
        invariant
            i <= template@.len(),
            out@.len() == i,
            j == placeholders(template@.take(i as int)),
            j <= table@.len(),
            forall|k: int| 0 <= k < i ==> #[trigger] out@[k] == shape_byte(template@, table@, k),
        decreases template@.len() - i,
    {
        proof {
            assert(template@.take(i + 1).drop_last() =~= template@.take(i as int));
            assert(template@.take(i + 1).last() == template@[i as int]);
            lemma_placeholders_grow(template@, i + 1);
        }
        if template[i] == PLACEHOLDER {
            if j >= table.len() {
                return None;
            }
            out.push(table[j]);
            j += 1;
        } else {
            out.push(template[i]);
        }
        i += 1;
    }
    proof {
        assert(template@.take(i as int) =~= template@);
        assert(out@ =~= resolved(template@, table@));
    }
    Some(out)
}

/// A template has at least the placeholders of each of its prefixes.
pub proof fn lemma_placeholders_grow(template: Seq<u8>, n: int)
    requires
        0 <= n <= template.len(),
    ensures
        placeholders(template.take(n)) <= placeholders(template),
    decreases template.len() - n,
{
    if n < template.len() {
        assert(template.take(n + 1).drop_last() =~= template.take(n));
        lemma_placeholders_grow(template, n + 1);
    } else {
        assert(template.take(n) =~= template);
    }
}

impl Keymap {
    /// Every table has an entry for every bit position.
    pub open spec fn wf(&self) -> bool {
        &&& self.default_table@.len() == KEY_BITS
        &&& forall|i: int|
            0 <= i < self.layouts@.len() ==> (#[trigger] self.layouts@[i]).table@.len() == KEY_BITS
    }

    /// Every stored shape is the template resolved against its table.
    pub open spec fn shapes_resolved(&self) -> bool {
        &&& self.default_shape@ == resolved(self.template@, self.default_table@)
        &&& forall|i: int|
            0 <= i < self.layouts@.len() ==> (#[trigger] self.layouts@[i]).shape@ == resolved(
                self.template@,
                self.layouts@[i].table@,
            )
    }

    /// The table at `i` has all its required modifiers in `mods`.
    pub open spec fn matches(&self, i: int, mods: u64) -> bool {
        holds_all(self.layouts@[i].required@, mods)
    }

    /// The first table from `from` on that matches `mods`.
    pub open spec fn first_match(&self, mods: u64, from: int) -> Option<int>
        decreases self.layouts@.len() - from,
    {
        if from < 0 || from >= self.layouts@.len() {
            None
        } else if self.matches(from, mods) {
            Some(from)
        } else {
            self.first_match(mods, from + 1)
        }
    }

    /// The lookup table that `mods` selects.
    pub open spec fn table_for(&self, mods: u64) -> Seq<u8> {
        match self.first_match(mods, 0) {
            Some(i) => self.layouts@[i].table@,
            None => self.default_table@,
        }
    }

    /// The display shape that `mods` selects.
    pub open spec fn shape_for(&self, mods: u64) -> Seq<u8> {
        match self.first_match(mods, 0) {
            Some(i) => self.layouts@[i].shape@,
            None => self.default_shape@,
        }
    }

    /// The character that the key state `key` produces.
    pub open spec fn one_char(&self, key: u64) -> Option<u8> {
        let mods = key & self.modifiers;
        let no_mod = key & !self.modifiers;
        let table = self.table_for(mods);
        if mods & !self.text_modifiers != 0 || !single_bit(no_mod) || bit_index(no_mod)
            >= table.len() {
            None
        } else {
            Some(table[bit_index(no_mod) as int])
        }
    }

    /// What `first_match` finds from `from` on: the first table that matches,
    /// or none where none matches.
    pub proof fn lemma_first_match_from(&self, mods: u64, from: int)
        requires
            0 <= from,
        ensures
            (match self.first_match(mods, from) {
                Some(k) => {
                    &&& from <= k < self.layouts@.len()
                    &&& self.matches(k, mods)
                    &&& forall|j: int| from <= j < k ==> !self.matches(j, mods)
                },
                None => forall|j: int| from <= j < self.layouts@.len() ==> !self.matches(j, mods),
            }),
        decreases self.layouts@.len() - from,
    {
        if from < self.layouts@.len() && !self.matches(from, mods) {
            self.lemma_first_match_from(mods, from + 1);
        }
    }

    /// Where a table matches, the selected table is the first of those that
    /// match: no table declared after another that matches is ever selected,
    /// neither for the display shape nor for the character.
    pub proof fn lemma_earlier_table_wins(&self, mods: u64, i: int)
        requires
            0 <= i < self.layouts@.len(),
            self.matches(i, mods),
        ensures
            self.first_match(mods, 0) is Some,
            0 <= self.first_match(mods, 0).unwrap() <= i,
            self.matches(self.first_match(mods, 0).unwrap(), mods),
            forall|j: int| 0 <= j < self.first_match(mods, 0).unwrap() ==> !self.matches(j, mods),
            self.table_for(mods) == self.layouts@[self.first_match(mods, 0).unwrap()].table@,
            self.shape_for(mods) == self.layouts@[self.first_match(mods, 0).unwrap()].shape@,
    {
        self.lemma_first_match_from(mods, 0);
    }

    /// Where no table matches, the default table is selected.
    pub proof fn lemma_default_table_is_last(&self, mods: u64)
        ensures
            self.first_match(mods, 0) is None <==> forall|j: int|
                0 <= j < self.layouts@.len() ==> !self.matches(j, mods),
    {
        self.lemma_first_match_from(mods, 0);
    }

    /// A key state produces a character exactly when one non-modifier bit is
    /// down and no modifier that blocks typing is; the character is then the
    /// entry of the selected table at that bit's position.
    pub proof fn lemma_one_char_iff_single_key(&self, key: u64)
        requires
            self.wf(),
        ensures
            self.one_char(key) is Some <==> single_bit(key & !self.modifiers) && (key
                & self.modifiers) & !self.text_modifiers == 0,
            self.one_char(key) is Some ==> self.one_char(key).unwrap() == self.table_for(
                key & self.modifiers,
            )[bit_index(key & !self.modifiers) as int],
    {
        self.lemma_first_match_from(key & self.modifiers, 0);
    }

    /// The display shape that a state selects shows the table that it selects.
    pub proof fn lemma_shape_shows_selected_table(&self, mods: u64)
        requires
            self.shapes_resolved(),
        ensures
            self.shape_for(mods) == resolved(self.template@, self.table_for(mods)),
    {
        self.lemma_first_match_from(mods, 0);
    }

    /// A keymap with a default table only, its shape resolved from `template`.
    /// `None` where the template has more placeholders than the table has
    /// characters.
    pub fn new(modifiers: u64, text_modifiers: u64, template: Vec<u8>, default_table: Vec<u8>) -> (r:
        Option<Keymap>)
        ensures
            r is Some <==> placeholders(template@) <= default_table@.len(),
            r is Some ==> ({
                let k = r.unwrap();
                &&& k.modifiers == modifiers
                &&& k.text_modifiers == text_modifiers
                &&& k.template@ == template@
                &&& k.default_table@ == default_table@
                &&& k.layouts@.len() == 0
                &&& k.shapes_resolved()
            }),
    {
        match make_layout(&default_table, &template) {
            Some(default_shape) => Some(
                Keymap {
                    modifiers,
                    text_modifiers,
                    template,
                    default_table,
                    default_shape,
                    layouts: Vec::new(),
                },
            ),
            None => None,
        }
    }

    /// Adds a modifier-combination table after those that are there, so with
    /// the lowest precedence, and resolves its shape. Returns `false`, and adds
    /// nothing, where the template has more placeholders than the table has
    /// characters.
    pub fn push_layout(&mut self, required: Vec<u64>, table: Vec<u8>) -> (r: bool)
        ensures
            r <==> placeholders(old(self).template@) <= table@.len(),
            !r ==> *final(self) == *old(self),
            r ==> ({
                &&& final(self).modifiers == old(self).modifiers
                &&& final(self).text_modifiers == old(self).text_modifiers
                &&& final(self).template == old(self).template
                &&& final(self).default_table == old(self).default_table
                &&& final(self).default_shape == old(self).default_shape
                &&& final(self).layouts@.len() == old(self).layouts@.len() + 1
                &&& final(self).layouts@.drop_last() == old(self).layouts@
                &&& final(self).layouts@.last().required@ == required@
                &&& final(self).layouts@.last().table@ == table@
                &&& final(self).layouts@.last().shape@ == resolved(old(self).template@, table@)
            }),
            old(self).shapes_resolved() ==> final(self).shapes_resolved(),
            old(self).wf() && table@.len() == KEY_BITS ==> final(self).wf(),
    {
        match make_layout(&table, &self.template) {
            Some(shape) => {
                self.layouts.push(Layout { required, table, shape });
                proof {
                    assert(self.layouts@.drop_last() =~= old(self).layouts@);
                }
                true
            },
            None => false,
        }
    }

    /// Whether every table has an entry for every bit position.
    pub fn is_complete(&self) -> (r: bool)
        ensures
            r == self.wf(),
    {
        if self.default_table.len() != KEY_BITS {
            return false;
        }
        let mut i: usize = 0;
        while i < self.layouts.len()
            invariant
                i <= self.layouts@.len(),
                forall|k: int| 0 <= k < i ==> (#[trigger] self.layouts@[k]).table@.len() == KEY_BITS,
            decreases self.layouts@.len() - i,
        {
            if self.layouts[i].table.len() != KEY_BITS {
                return false;
            }
            i += 1;
        }
        true
    }

    /// The index of the table that `mods` selects, `None` for the default table.
    pub fn select(&self, mods: u64) -> (r: Option<usize>)
        ensures
            r is Some <==> self.first_match(mods, 0) is Some,
            r is Some ==> r.unwrap() == self.first_match(mods, 0).unwrap() && r.unwrap()
                < self.layouts@.len(),
    {
        let mut i: usize = 0;
        while i < self.layouts.len()
            invariant
                i <= self.layouts@.len(),
                self.first_match(mods, 0) == self.first_match(mods, i as int),
            decreases self.layouts@.len() - i,
        {
            let required = &self.layouts[i].required;
            let mut all = true;
            let mut j: usize = 0;
            while j < required.len()
                invariant
                    j <= required@.len(),
                    all <==> forall|k: int| 0 <= k < j ==> #[trigger] required@[k] & mods != 0,
                decreases required@.len() - j,
            {
                if required[j] & mods == 0 {
                    all = false;
                }
                j += 1;
            }
            if all {
                return Some(i);
            }
            i += 1;
        }
        None
    }

    /// The projection of `key` onto the modifiers that still permit typing.
    pub fn get_text_modifiers(&self, key: u64) -> (r: u64)
        ensures
            r == key & self.text_modifiers,
    {
        key & self.text_modifiers
    }

    /// The display shape of the layout that the modifiers of `key` select.
    pub fn get_layout(&self, key: u64) -> (r: &[u8])
        ensures
            r@ == self.shape_for(key & self.modifiers),
            self.shapes_resolved() ==> r@ == resolved(
                self.template@,
                self.table_for(key & self.modifiers),
            ),
    {
        proof {
            if self.shapes_resolved() {
                self.lemma_shape_shows_selected_table(key & self.modifiers);
            }
        }
        match self.select(key & self.modifiers) {
            Some(i) => self.layouts[i].shape.as_slice(),
            None => self.default_shape.as_slice(),
        }
    }

    /// The character of `key`: that of its one non-modifier bit in the selected
    /// table, unless a modifier that blocks typing is held.
    pub fn get_one_char(&self, key: u64) -> (r: Option<u8>)
        ensures
            r == self.one_char(key),
    {
        let no_mod = key & !self.modifiers;
        let mods = key & self.modifiers;
        if mods & !self.text_modifiers != 0 {
            return None;
        }
        match single_bit_index(no_mod) {
            None => None,
            Some(bit) => {
                let at = bit as usize;
                match self.select(mods) {
                    Some(i) => {
                        let table = &self.layouts[i].table;
                        if at < table.len() {
                            Some(table[at])
                        } else {
                            None
                        }
                    },
                    None => {
                        if at < self.default_table.len() {
                            Some(self.default_table[at])
                        } else {
                            None
                        }
                    },
                }
            },
        }
    }
}

/// A sampled key state together with the tables that resolve it. A key without
/// tables produces no character and has no text modifiers: it can still be
/// compared, as a control key is.
#[derive(Clone, Copy)]
pub struct Key {
    pub bits: u64,
    pub keymap: Option<&'static Keymap>,
}

impl PartialEq for Key {
    fn eq(&self, other: &Self) -> (r: bool) {
        self.bits == other.bits
    }
}

impl PartialEqSpecImpl for Key {
    open spec fn obeys_eq_spec() -> bool {
        true
    }

    open spec fn eq_spec(&self, other: &Self) -> bool {
        self.bits == other.bits
    }
}

impl Default for Key {
    fn default() -> (r: Self)
        ensures
            r.bits == 0,
            r.keymap is None,
    {
        Key { bits: 0, keymap: None }
    }
}

impl HasLayout for Key {

}

impl InnerKeys for Key {
    open spec fn bits(self) -> nat {
        self.bits as nat
    }

    open spec fn text_modifiers(self) -> Self {
        match self.keymap {
            Some(keymap) => Key { bits: self.bits & keymap.text_modifiers, keymap: self.keymap },
            None => Key { bits: 0, keymap: self.keymap },
        }
    }

    open spec fn one_char(self) -> Option<u8> {
        match self.keymap {
            Some(keymap) => keymap.one_char(self.bits),
            None => None,
        }
    }

    open spec fn layout(self) -> Seq<u8> {
        match self.keymap {
            Some(keymap) => keymap.shape_for(self.bits & keymap.modifiers),
            None => Seq::empty(),
        }
    }

    proof fn equality_is_bitwise() {
    }

    proof fn projection_of_empty(key: Self) {
        match key.keymap {
            Some(keymap) => {
                let t = keymap.text_modifiers;
                assert(0u64 & t == 0) by (bit_vector);
            },
            None => {},
        }
    }

    fn empty() -> (r: Self)
        ensures
            r == (Key { bits: 0, keymap: None }),
    {
        Key { bits: 0, keymap: None }
    }

    fn get_text_modifiers(self) -> (r: Self) {
        match self.keymap {
            Some(keymap) => Key { bits: keymap.get_text_modifiers(self.bits), keymap: self.keymap },
            None => Key { bits: 0, keymap: self.keymap },
        }
    }

    fn get_one_char(self) -> (r: Option<u8>) {
        match self.keymap {
            Some(keymap) => keymap.get_one_char(self.bits),
            None => None,
        }
    }

    fn get_layout(self) -> (r: &'static [u8]) {
        match self.keymap {
            Some(keymap) => keymap.get_layout(self.bits),
            None => &[],
        }
    }
}

} // verus!
