use vstd::prelude::*;

verus! {

/// Display tag carried by each element of the store: a plain RGB triple.
/// The renderer decides what a tag looks like on screen; the sorting core
/// only attaches tags to events and treats `white` as the reset sentinel.
#[derive(Clone, Copy, Debug, PartialEq, Eq, Structural, Hash)]
pub struct Tag {
    pub r: u8,
    pub g: u8,
    pub b: u8,
}

impl Tag {
    /// The reset sentinel: consumers map it to their own default look.
    pub open spec fn white_spec() -> Tag {
        (Tag { r: 255, g: 255, b: 255 })
    }

    #[verifier::when_used_as_spec(white_spec)]
    pub fn white() -> (t: Tag)
        ensures
            t == Tag::white_spec(),
    {
        Tag { r: 255, g: 255, b: 255 }
    }

    pub fn from_rgb(r: u8, g: u8, b: u8) -> (t: Tag)
        ensures
            t == (Tag { r, g, b }),
    {
        Tag { r, g, b }
    }

    pub open spec fn yellow_spec() -> Tag {
        (Tag { r: 255, g: 255, b: 0 })
    }

    #[verifier::when_used_as_spec(yellow_spec)]
    pub fn yellow() -> (t: Tag)
        ensures
            t == Tag::yellow_spec(),
    {
        Tag { r: 255, g: 255, b: 0 }
    }

    pub open spec fn green_spec() -> Tag {
        (Tag { r: 0, g: 255, b: 0 })
    }

    #[verifier::when_used_as_spec(green_spec)]
    pub fn green() -> (t: Tag)
        ensures
            t == Tag::green_spec(),
    {
        Tag { r: 0, g: 255, b: 0 }
    }

    pub open spec fn red_spec() -> Tag {
        (Tag { r: 255, g: 0, b: 0 })
    }

    #[verifier::when_used_as_spec(red_spec)]
    pub fn red() -> (t: Tag)
        ensures
            t == Tag::red_spec(),
    {
        Tag { r: 255, g: 0, b: 0 }
    }

    pub open spec fn blue_spec() -> Tag {
        (Tag { r: 0, g: 0, b: 255 })
    }

    #[verifier::when_used_as_spec(blue_spec)]
    pub fn blue() -> (t: Tag)
        ensures
            t == Tag::blue_spec(),
    {
        Tag { r: 0, g: 0, b: 255 }
    }

    pub open spec fn gray_spec() -> Tag {
        (Tag { r: 160, g: 160, b: 160 })
    }

    #[verifier::when_used_as_spec(gray_spec)]
    pub fn gray() -> (t: Tag)
        ensures
            t == Tag::gray_spec(),
    {
        Tag { r: 160, g: 160, b: 160 }
    }

    pub open spec fn light_green_spec() -> Tag {
        (Tag { r: 144, g: 238, b: 144 })
    }

    #[verifier::when_used_as_spec(light_green_spec)]
    pub fn light_green() -> (t: Tag)
        ensures
            t == Tag::light_green_spec(),
    {
        Tag { r: 144, g: 238, b: 144 }
    }

    pub open spec fn light_blue_spec() -> Tag {
        (Tag { r: 173, g: 216, b: 230 })
    }

    #[verifier::when_used_as_spec(light_blue_spec)]
    pub fn light_blue() -> (t: Tag)
        ensures
            t == Tag::light_blue_spec(),
    {
        Tag { r: 173, g: 216, b: 230 }
    }
}

/// One element of the store: the key being sorted plus its display tag.
#[derive(Clone, Copy, Debug, PartialEq, Eq, Structural)]
pub struct SortBar {
    pub value: usize,
    pub color: Tag,
}

impl SortBar {
    pub fn new(value: usize) -> (b: SortBar)
        ensures
            b.value == value,
            b.color == Tag::white_spec(),
    {
        SortBar { value, color: Tag::white() }
    }
}

/// The keys of a store, in order.
pub open spec fn key_seq(s: Seq<SortBar>) -> Seq<usize> {
    s.map_values(|b: SortBar| b.value)
}

/// Keys are in non-decreasing order.
pub open spec fn sorted_keys(s: Seq<SortBar>) -> bool {
    forall|i: int, j: int| 0 <= i < j < s.len() ==> s[i].value <= s[j].value
}

/// Keys are in non-decreasing order within `[lo, hi)`.
pub open spec fn sorted_key_range(s: Seq<SortBar>, lo: int, hi: int) -> bool {
    forall|i: int, j: int| lo <= i < j < hi && 0 <= i && j < s.len() ==> s[i].value <= s[j].value
}

/// The elements whose key is `k`, in store order.  Two stores with equal
/// key classes hold the same elements, and equal-key elements stand in the
/// same relative order in both: this is how stability is stated.
pub open spec fn key_class(s: Seq<SortBar>, k: usize) -> Seq<SortBar> {
    s.filter(|b: SortBar| b.value == k)
}

/// Every key class of `s` equals the corresponding class of `t`.
pub open spec fn same_key_classes(s: Seq<SortBar>, t: Seq<SortBar>) -> bool {
    forall|k: usize| #[trigger] key_class(s, k) == key_class(t, k)
}

} // verus!
