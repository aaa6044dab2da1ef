use vstd::prelude::*;

use crate::search::{lemma_filter_agree, lemma_map_values_push};
use crate::text::{contains_text, copy_strings, texts};

verus! {

broadcast use vstd::string::group_string_axioms;

/// The WM_CLASS values managed when the user has configured nothing.
pub open spec fn default_wm_classes() -> Seq<Seq<char>> {
    seq![
        "Gnome-terminal"@,
        "Tilix"@,
        "xterm"@,
        "XTerm"@,
        "Konsole"@,
        "kitty"@,
        "Ghostty"@,
        "Terminator"@,
        "Alacritty"@,
    ]
}

/// `base` followed by each class of `overlay` that is not already present
/// (case-sensitive), in overlay order.
pub open spec fn merged_classes(base: Seq<Seq<char>>, overlay: Seq<Seq<char>>) -> Seq<Seq<char>>
    decreases overlay.len(),
{
    if overlay.len() == 0 {
        base
    } else {
        let acc = merged_classes(base, overlay.drop_last());
        if acc.contains(overlay.last()) {
            acc
        } else {
            acc.push(overlay.last())
        }
    }
}

/// Application configuration — which WM_CLASS values to manage.
pub struct Config {
    wm_classes: Vec<String>,
}

impl View for Config {
    /// The configured class names, in order.
    type V = Seq<Seq<char>>;

    closed spec fn view(&self) -> Seq<Seq<char>> {
        texts(self.wm_classes@)
    }
}

impl Config {
    /// A configuration managing exactly the given classes.
    pub fn new(wm_classes: Vec<String>) -> (c: Config)
        ensures
            c@ == texts(wm_classes@),
    {
        Config { wm_classes }
    }

    pub fn wm_classes(&self) -> (classes: &[String])
        ensures
            texts(classes@) == self@,
    {
        self.wm_classes.as_slice()
    }

    /// Merge overlay classes into self, deduplicating (case-sensitive).
    pub fn merge(&self, overlay: &Config) -> (merged: Config)
        ensures
            merged@ == merged_classes(self@, overlay@),
    {
        let mut classes = copy_strings(&self.wm_classes);
        let mut i: usize = 0;
        while i < overlay.wm_classes.len()
            invariant
                i <= overlay.wm_classes@.len(),
                texts(classes@) == merged_classes(
                    texts(self.wm_classes@),
                    texts(overlay.wm_classes@).take(i as int),
                ),
            decreases overlay.wm_classes@.len() - i,
        {
            let c = &overlay.wm_classes[i];
            let ghost ov = texts(overlay.wm_classes@);
            proof {
                assert(ov.take(i + 1).drop_last() =~= ov.take(i as int));
                assert(ov.take(i + 1).last() == c@);
            }
            if !contains_text(&classes, c) {
                classes.push(c.clone());
                proof {
                    assert(texts(classes@) =~= texts(classes@.drop_last()).push(c@));
                }
            }
            i = i + 1;
        }
        proof {
            assert(texts(overlay.wm_classes@).take(overlay.wm_classes@.len() as int) =~= texts(
                overlay.wm_classes@,
            ));
        }
        Config { wm_classes: classes }
    }
}

impl Default for Config {
    fn default() -> (c: Config)
        ensures
            c@ == default_wm_classes(),
    {
        let v: Vec<String> = vec![
            "Gnome-terminal".to_string(),
            "Tilix".to_string(),
            "xterm".to_string(),
            "XTerm".to_string(),
            "Konsole".to_string(),
            "kitty".to_string(),
            "Ghostty".to_string(),
            "Terminator".to_string(),
            "Alacritty".to_string(),
        ];
        proof {
            assert(texts(v@) =~= default_wm_classes());
        }
        Config { wm_classes: v }
    }
}

/// Merging keeps the base classes first and in order, and contains exactly
/// the classes of either configuration.
pub proof fn merge_keeps_base_and_adds_overlay(base: Seq<Seq<char>>, overlay: Seq<Seq<char>>)
    ensures
        merged_classes(base, overlay).take(base.len() as int) == base,
        base.len() <= merged_classes(base, overlay).len(),
        forall|c: Seq<char>|
            merged_classes(base, overlay).contains(c) <==> (base.contains(c) || overlay.contains(
                c,
            )),
    decreases overlay.len(),
{
    if overlay.len() == 0 {
        assert(base.take(base.len() as int) =~= base);
    } else {
        merge_keeps_base_and_adds_overlay(base, overlay.drop_last());
        let acc = merged_classes(base, overlay.drop_last());
        let last = overlay.last();
        if !acc.contains(last) {
            assert(acc.push(last).take(base.len() as int) =~= acc.take(base.len() as int));
        }
        assert forall|c: Seq<char>|
            merged_classes(base, overlay).contains(c) <==> (base.contains(c) || overlay.contains(
                c,
            )) by {
            if overlay.contains(c) && !overlay.drop_last().contains(c) {
                let k = choose|k: int| 0 <= k < overlay.len() && overlay[k] == c;
                if k < overlay.len() - 1 {
                    assert(overlay.drop_last()[k] == c);
                }
            }
            if overlay.drop_last().contains(c) {
                let k = choose|k: int|
                    0 <= k < overlay.drop_last().len() && overlay.drop_last()[k] == c;
                assert(overlay[k] == c);
            }
            if acc.push(last).contains(c) && !acc.contains(c) {
                let k = choose|k: int| 0 <= k < acc.push(last).len() && acc.push(last)[k] == c;
                if k < acc.len() {
                    assert(acc[k] == c);
                }
            }
            if acc.contains(c) {
                let k = choose|k: int| 0 <= k < acc.len() && acc[k] == c;
                assert(acc.push(last)[k] == c);
            }
            if c == last {
                assert(overlay[overlay.len() - 1] == c);
                if !acc.contains(last) {
                    assert(acc.push(last)[acc.len() as int] == c);
                }
            }
        }
    }
}

/// Merging never introduces a duplicate: if the base has no repeated class,
/// neither has the result (the same class given twice is kept once).
pub proof fn merge_has_no_duplicates(base: Seq<Seq<char>>, overlay: Seq<Seq<char>>)
    requires
        base.no_duplicates(),
    ensures
        merged_classes(base, overlay).no_duplicates(),
    decreases overlay.len(),
{
    if overlay.len() > 0 {
        merge_has_no_duplicates(base, overlay.drop_last());
        let acc = merged_classes(base, overlay.drop_last());
        let last = overlay.last();
        if !acc.contains(last) {
            assert forall|i: int, j: int|
                0 <= i < acc.push(last).len() && 0 <= j < acc.push(last).len() && i != j
                implies acc.push(last)[i] != acc.push(last)[j] by {
                if i == acc.len() as int {
                    assert(acc[j] == acc.push(last)[j]);
                } else if j == acc.len() as int {
                    assert(acc[i] == acc.push(last)[i]);
                }
            }
        }
    }
}

/// The classes of `overlay` with their positions.
pub open spec fn indexed(overlay: Seq<Seq<char>>) -> Seq<(int, Seq<char>)> {
    Seq::new(overlay.len(), |i: int| (i, overlay[i]))
}

/// Whether the class at a position of `overlay` is new: absent from `base`
/// and from every earlier position of `overlay`.
pub open spec fn first_new(base: Seq<Seq<char>>, overlay: Seq<Seq<char>>) -> spec_fn((int, Seq<char>)) -> bool {
    |p: (int, Seq<char>)| !base.contains(p.1) && !overlay.take(p.0).contains(p.1)
}

pub open spec fn class_of(p: (int, Seq<char>)) -> Seq<char> {
    p.1
}

/// Merging gives the base followed by the overlay's new classes, each at its
/// first occurrence, in overlay order.
pub proof fn merge_closed_form(base: Seq<Seq<char>>, overlay: Seq<Seq<char>>)
    ensures
        merged_classes(base, overlay) == base + indexed(overlay).filter(first_new(base, overlay)).map_values(
            |p: (int, Seq<char>)| class_of(p),
        ),
    decreases overlay.len(),
{
    let f = |p: (int, Seq<char>)| class_of(p);
    if overlay.len() == 0 {
        assert(indexed(overlay).filter(first_new(base, overlay)) =~= Seq::<(int, Seq<char>)>::empty());
        assert(base + Seq::<Seq<char>>::empty() =~= base);
    } else {
        let dl = overlay.drop_last();
        let last = overlay.last();
        let n = overlay.len() - 1;
        merge_closed_form(base, dl);
        merge_keeps_base_and_adds_overlay(base, dl);
        assert(indexed(overlay) =~= indexed(dl).push((n, last)));
        assert forall|i: int| 0 <= i < indexed(dl).len() implies first_new(base, overlay)(#[trigger] indexed(dl)[i])
            == first_new(base, dl)(indexed(dl)[i]) by {
            assert(overlay.take(i) =~= dl.take(i));
        }
        lemma_filter_agree(indexed(dl), first_new(base, overlay), first_new(base, dl));
        indexed(dl).lemma_filter_push((n, last), first_new(base, overlay));
        assert(overlay.take(n) =~= dl);
        let kept = indexed(dl).filter(first_new(base, dl));
        lemma_map_values_push(kept, (n, last), f);
        let acc = merged_classes(base, dl);
        if acc.contains(last) {
            assert(base.contains(last) || dl.contains(last));
        } else {
            assert(base + kept.map_values(f).push(last) =~= (base + kept.map_values(f)).push(last));
        }
    }
}


} // verus!
