use vstd::prelude::*;
use vstd::std_specs::cmp::PartialEqSpec;

verus! {

/// Marker for key-bit types that come with display layouts.
pub trait HasLayout {

}

/// What the line editor needs from a key-bit type: a sampled state of the whole
/// keypad, modelled by its bitmask.
pub trait InnerKeys: Sized + Copy + PartialEq {
    /// The bitmask of the keys that are down.
    spec fn bits(self) -> nat;

    /// The projection of this state onto the modifiers that still permit typing.
    spec fn text_modifiers(self) -> Self;

    /// The character that this state produces, if it produces one.
    spec fn one_char(self) -> Option<u8>;

    /// The display shape of the layout that this state selects.
    spec fn layout(self) -> Seq<u8>;

    /// `==` on key states compares their bitmasks.
    proof fn equality_is_bitwise()
        ensures
            Self::obeys_eq_spec(),
            forall|a: Self, b: Self| #[trigger] a.eq_spec(&b) <==> a.bits() == b.bits(),
    ;

    /// The projection of a state with no key down has no key down.
    proof fn projection_of_empty(key: Self)
        requires
            key.bits() == 0,
        ensures
            key.text_modifiers().bits() == 0,
    ;

    /// The state in which no key is down.
    fn empty() -> (r: Self)
        ensures
            r.bits() == 0,
    ;

    /// This state without all but the modifiers that still permit typing.
    fn get_text_modifiers(self) -> (r: Self)
        ensures
            r == self.text_modifiers(),
    ;

    /// The character of this state, where exactly one key is down besides
    /// modifiers that permit typing.
    fn get_one_char(self) -> (r: Option<u8>)
        ensures
            r == self.one_char(),
    ;

    /// The display shape of the layout that the held modifiers select.
    fn get_layout(self) -> (r: &'static [u8])
        ensures
            r@ == self.layout(),
    ;
}

} // verus!
