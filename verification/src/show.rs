//! Shows, their theme pools, and theme classification.

use vstd::prelude::*;

verus! {

/// One show in the catalog: a unique identifier, a title, an optional
/// reference URL, and three ordered lists of theme songs. Duplicates within
/// and between the lists are possible and preserved.
#[derive(Debug, Hash, PartialEq, Eq)]
pub struct Show {
    pub id: usize,
    pub title: String,
    pub url: Option<String>,
    pub opening_themes: Vec<String>,
    pub ending_themes: Vec<String>,
    pub other_soundtrack: Vec<String>,
}

/// The category a theme song falls into.
#[derive(Debug, Clone, Copy, PartialEq, Eq, Structural)]
pub enum ThemeKind {
    Opening,
    Ending,
    Other,
}

/// True when some string in `v` has exactly the characters `x`.
pub open spec fn contains_string(v: Seq<String>, x: Seq<char>) -> bool {
    exists|i: int| 0 <= i < v.len() && v[i]@ == x
}

/// The merged theme pool of a show: opening themes, then ending themes,
/// then other soundtrack themes, in order, duplicates preserved.
pub open spec fn aggregate_spec(s: Show) -> Seq<String> {
    s.opening_themes@ + s.ending_themes@ + s.other_soundtrack@
}

/// The category of a theme within a show: the opening list is consulted
/// first, then the ending list; anything else is Other. A theme present in
/// both the opening and the ending list is therefore always Opening.
pub open spec fn classify_spec(theme: Seq<char>, s: Show) -> ThemeKind {
    if contains_string(s.opening_themes@, theme) {
        ThemeKind::Opening
    } else if contains_string(s.ending_themes@, theme) {
        ThemeKind::Ending
    } else {
        ThemeKind::Other
    }
}

impl ThemeKind {
    /// The two-letter code a renderer prints for this category.
    pub fn code(&self) -> (r: &'static str)
        ensures
            *self == ThemeKind::Opening ==> r@ == "OP"@,
            *self == ThemeKind::Ending ==> r@ == "ED"@,
            *self == ThemeKind::Other ==> r@ == "ST"@,
    {
        match self {
            ThemeKind::Opening => "OP",
            ThemeKind::Ending => "ED",
            ThemeKind::Other => "ST",
        }
    }
}

/// Appends a clone of `other` to `first`, skipping the work entirely when
/// `other` is empty.
pub fn smart_append<T: Clone>(first: &mut Vec<T>, other: &Vec<T>)
    ensures
        final (first)@.len() == old(first)@.len() + other@.len(),
        forall|i: int| 0 <= i < old(first)@.len() ==> final (first)@[i] == old(first)@[i],
        forall|i: int|
            0 <= i < other@.len() ==> cloned::<T>(
                other@[i],
                final (first)@[old(first)@.len() + i],
            ),
{
    if !other.is_empty() {
        first.append(&mut other.clone());
    }
}

/// A clone of a `String` has the same characters and is, to the
/// specification, the same value.
proof fn lemma_cloned_string(a: String, b: String)
    requires
        cloned::<String>(a, b),
    ensures
        a == b,
{
}

/// Merges the show's three theme lists into one searchable pool:
/// opening themes, then ending themes, then other soundtrack themes.
pub fn aggregate(show: &Show) -> (themes: Vec<String>)
    ensures
        themes@ == aggregate_spec(*show),
{
    let mut themes = show.opening_themes.clone();
    proof {
        assert forall|i: int| 0 <= i < show.opening_themes@.len() implies themes@[i]
            == show.opening_themes@[i] by {
            lemma_cloned_string(show.opening_themes@[i], themes@[i]);
        }
        assert(themes@ =~= show.opening_themes@);
    }
    let ghost after_opening = themes@;
    smart_append(&mut themes, &show.ending_themes);
    proof {
        assert forall|i: int| 0 <= i < show.ending_themes@.len() implies themes@[after_opening.len()
            + i] == show.ending_themes@[i] by {
            lemma_cloned_string(show.ending_themes@[i], themes@[after_opening.len() + i]);
        }
        assert(themes@ =~= show.opening_themes@ + show.ending_themes@);
    }
    let ghost after_ending = themes@;
    smart_append(&mut themes, &show.other_soundtrack);
    proof {
        assert forall|i: int| 0 <= i < show.other_soundtrack@.len() implies themes@[after_ending.len()
            + i] == show.other_soundtrack@[i] by {
            lemma_cloned_string(show.other_soundtrack@[i], themes@[after_ending.len() + i]);
        }
        assert(themes@ =~= aggregate_spec(*show));
    }
    themes
}

/// Whether any string in `v` has exactly the characters of `x`.
fn contains_theme(v: &Vec<String>, x: &String) -> (b: bool)
    ensures
        b == contains_string(v@, x@),
{
    let mut i: usize = 0;
    while i < v.len()
        invariant
            i <= v@.len(),
            forall|j: int| 0 <= j < i ==> v@[j]@ != x@,
        decreases v@.len() - i,
    {
        if x.eq(&v[i]) {
            assert(contains_string(v@, x@)) by {
                assert(v@[i as int]@ == x@);
            }
            return true;
        }
        i += 1;
    }
    false
}

/// Classifies `theme` within `show` by positional lookup: membership in the
/// opening list is tested first, then the ending list, and everything else
/// defaults to Other.
pub fn classify(theme: &String, show: &Show) -> (kind: ThemeKind)
    ensures
        kind == classify_spec(theme@, *show),
{
    if contains_theme(&show.opening_themes, theme) {
        ThemeKind::Opening
    } else if contains_theme(&show.ending_themes, theme) {
        ThemeKind::Ending
    } else {
        ThemeKind::Other
    }
}

/// First-match tie-break: a theme that appears both in the opening list and
/// in the ending list of a show is always classified Opening.
pub proof fn lemma_classify_tie_break(theme: Seq<char>, show: Show)
    requires
        contains_string(show.opening_themes@, theme),
        contains_string(show.ending_themes@, theme),
    ensures
        classify_spec(theme, show) == ThemeKind::Opening,
{
}

} // verus!
