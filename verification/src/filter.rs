use vstd::prelude::*;

use crate::text::texts;

verus! {

/// What the standard library's Unicode lower-casing (`str::to_lowercase`)
/// returns for a text.
pub uninterp spec fn unicode_lowercase(s: Seq<char>) -> Seq<char>;

/// Calls `str::to_lowercase`; the result is named `unicode_lowercase` of the
/// input, a function of the text alone. The Unicode case tables are not stated.
#[verifier::external_body]
pub(crate) fn lowercase(s: &str) -> (r: String)
    ensures
        r@ == unicode_lowercase(s@),
{
    s.to_lowercase()
}

/// Decides whether a window's WM_CLASS should be managed by PTM.
#[derive(Clone)]
pub struct Filter {
    classes_lower: Vec<String>,
}

impl View for Filter {
    /// The lower-cased class names the filter accepts.
    type V = Seq<Seq<char>>;

    closed spec fn view(&self) -> Seq<Seq<char>> {
        texts(self.classes_lower@)
    }
}

/// Whether a filter with lower-cased classes `lowered` accepts `wm_class`:
/// some class equals it case-insensitively.
pub open spec fn accepts(lowered: Seq<Seq<char>>, wm_class: Seq<char>) -> bool {
    lowered.contains(unicode_lowercase(wm_class))
}

impl Filter {
    pub fn new(classes: Vec<String>) -> (f: Self)
        ensures
            f@ == texts(classes@).map_values(|c: Seq<char>| unicode_lowercase(c)),
    {
        let mut lowered: Vec<String> = Vec::new();
        let mut i: usize = 0;
        while i < classes.len()
            invariant
                i <= classes@.len(),
                lowered@.len() == i,
                forall|k: int| 0 <= k < i ==> lowered@[k]@ == unicode_lowercase(#[trigger] classes@[k]@),
            decreases classes@.len() - i,
        {
            let l = lowercase(classes[i].as_str());
            lowered.push(l);
            i = i + 1;
        }
        proof {
            assert(texts(lowered@) =~= texts(classes@).map_values(|c: Seq<char>| unicode_lowercase(c)));
        }
        Filter { classes_lower: lowered }
    }

    pub fn matches(&self, wm_class: &str) -> (r: bool)
        ensures
            r == accepts(self@, wm_class@),
    {
        let lower = lowercase(wm_class);
        crate::text::contains_text(&self.classes_lower, &lower)
    }
}

} // verus!
