//! The battery-fraction transform: scales a matched element's `width` by the
//! remaining charge and, when the charge is low, rewrites the `fill` of its
//! `style` attribute. The charge is a per-mille fraction (`0..=1000`); the
//! recolor thresholds sit at `300` (below: orange) and `150` (below: red),
//! both strict, mirroring charge fractions of `0.3` and `0.15`.

use vstd::prelude::*;

use crate::attrs::{assoc_get, assoc_insert, lemma_assoc_insert, keys_distinct, AttrMap};
use crate::num::{
    format_micro, format_micro_str, lemma_width_value_bound, lemma_width_value_of_format,
    parse_width, scale, scale_width, width_value,
};
use crate::style::{
    lemma_parse_style_wf, lemma_reparse_render, map_as_style, parse_style_map, parse_style_spec,
    render_style_spec, style_pair_wf,
};
use crate::text::has_no;

verus! {

/// Why the transform refused an element.
#[derive(Clone, Copy, Debug, PartialEq, Eq, Structural)]
pub enum TransformError {
    /// The element has no `width` attribute.
    MissingAttribute,
    /// The `width` attribute is not an accepted decimal literal.
    NumericParse,
}

impl TransformError {
    /// A short description for error reporting.
    pub fn message(&self) -> String {
        match self {
            TransformError::MissingAttribute => String::from_str("element has no width attribute"),
            TransformError::NumericParse => String::from_str(
                "width attribute is not a valid number",
            ),
        }
    }
}

/// The fill color written for a given low charge: red below `150`
/// per-mille, orange below `300`.
pub open spec fn fill_color(charge: nat) -> Seq<char> {
    if charge < 150 {
        "#ff0000"@
    } else {
        "#ff8000"@
    }
}

/// The style map after recoloring: the old style parsed (an unreadable style
/// recovers to the empty map rather than failing) with `fill` bound to the
/// low-charge color.
pub open spec fn recolored_style(style_val: Seq<char>, charge: nat) -> Seq<(Seq<char>, Seq<char>)> {
    let sm = match parse_style_spec(style_val) {
        Option::Some(m) => m,
        Option::None => Seq::empty(),
    };
    assoc_insert(sm, "fill"@, fill_color(charge))
}

/// What the transform does to an attribute map: `width` must be present and
/// readable and is scaled by the charge; below `300` per-mille the `style`
/// attribute (empty when absent) is re-rendered with `fill` recolored; at or
/// above `300` everything but `width` is untouched.
pub open spec fn transform_spec(ps: Seq<(Seq<char>, Seq<char>)>, charge: nat) -> Result<
    Seq<(Seq<char>, Seq<char>)>,
    TransformError,
> {
    match assoc_get(ps, "width"@) {
        Option::None => Err(TransformError::MissingAttribute),
        Option::Some(ws) => match width_value(ws) {
            Option::None => Err(TransformError::NumericParse),
            Option::Some(w) => {
                let ps1 = assoc_insert(ps, "width"@, format_micro(scale(w, charge)));
                if charge < 300 {
                    let sv = match assoc_get(ps1, "style"@) {
                        Option::Some(s) => s,
                        Option::None => Seq::empty(),
                    };
                    Ok(assoc_insert(ps1, "style"@, render_style_spec(recolored_style(sv, charge))))
                } else {
                    Ok(ps1)
                }
            },
        },
    }
}

/// Adjusts the attribute map of a matched element: scales `width` from 100%
/// down to the per-mille `charge`, and recolors the style's `fill` when the
/// charge is below `300` per-mille.
pub fn battery_fraction(attr_map: &mut AttrMap, charge: u32) -> (r: Result<(), TransformError>)
    requires
        charge <= 1000,
        old(attr_map).wf(),
    ensures
        final(attr_map).wf(),
        match r {
            Ok(_) => transform_spec(old(attr_map)@, charge as nat) == Ok::<_, TransformError>(
                final(attr_map)@,
            ),
            Err(e) => transform_spec(old(attr_map)@, charge as nat) == Err::<
                Seq<(Seq<char>, Seq<char>)>,
                _,
            >(e) && final(attr_map)@ == old(attr_map)@,
        },
{
    let w_parsed = match attr_map.get("width") {
        Some(ws) => parse_width(ws.as_str()),
        None => {
            return Err(TransformError::MissingAttribute);
        },
    };
    let w = match w_parsed {
        Some(w) => w,
        None => {
            return Err(TransformError::NumericParse);
        },
    };
    proof {
        let ws = assoc_get(attr_map@, "width"@).unwrap();
        lemma_width_value_bound(ws, w as nat);
    }
    let scaled = scale_width(w, charge);
    attr_map.insert(String::from_str("width"), format_micro_str(scaled));
    if charge < 300 {
        let style_s = match attr_map.get("style") {
            Some(s) => s.clone(),
            None => String::new(),
        };
        let mut sm = match parse_style_map(style_s.as_str()) {
            Ok(m) => m,
            Err(_) => AttrMap::new(),
        };
        let fill = if charge < 150 {
            "#ff0000"
        } else {
            "#ff8000"
        };
        sm.insert(String::from_str("fill"), String::from_str(fill));
        proof {
            assert(sm@ == recolored_style(style_s@, charge as nat));
        }
        let new_style = map_as_style(&sm);
        attr_map.insert(String::from_str("style"), new_style);
    }
    Ok(())
}

/// The scaled width reads back exactly: after a successful transform the
/// `width` attribute decodes to the old value scaled by the charge, and a
/// full charge keeps the width's value unchanged.
pub proof fn lemma_transform_width(ps: Seq<(Seq<char>, Seq<char>)>, charge: nat, r: Seq<
    (Seq<char>, Seq<char>),
>)
    requires
        charge <= 1000,
        transform_spec(ps, charge) == Ok::<_, TransformError>(r),
    ensures
        ({
            let w = width_value(assoc_get(ps, "width"@).unwrap()).unwrap();
            &&& assoc_get(r, "width"@) is Some
            &&& width_value(assoc_get(r, "width"@).unwrap()) == Some(scale(w, charge))
            &&& (charge == 1000 ==> scale(w, charge) == w)
        }),
{
    let ws = assoc_get(ps, "width"@).unwrap();
    let w = width_value(ws).unwrap();
    lemma_width_value_bound(ws, w);
    assert(scale(w, charge) <= w) by {
        assert(w * charge <= w * 1000) by (nonlinear_arith)
            requires charge <= 1000;
        vstd::arithmetic::div_mod::lemma_div_is_ordered(
            (w * charge) as int,
            (w * 1000) as int,
            1000,
        );
        vstd::arithmetic::div_mod::lemma_div_by_multiple(w as int, 1000);
    }
    lemma_width_value_of_format(scale(w, charge));
    let ps1 = assoc_insert(ps, "width"@, format_micro(scale(w, charge)));
    lemma_assoc_insert(ps, "width"@, format_micro(scale(w, charge)));
    if charge < 300 {
        lemma_assoc_insert(ps1, "style"@, render_style_spec(recolored_style(
            match assoc_get(ps1, "style"@) {
                Option::Some(s) => s,
                Option::None => Seq::empty(),
            },
            charge,
        )));
        reveal_strlit("width");
        reveal_strlit("style");
        assert("width"@ != "style"@) by {
            assert("width"@.len() == 5);
            assert("style"@.len() == 5);
            assert("width"@[0] == 'w');
            assert("style"@[0] == 's');
        }
    }
    if charge == 1000 {
        vstd::arithmetic::div_mod::lemma_div_by_multiple(w as int, 1000);
    }
}

/// The characters of the two fill colors are tame: they render and re-parse
/// cleanly.
proof fn lemma_fill_pair_wf(charge: nat)
    ensures
        style_pair_wf(("fill"@, fill_color(charge))),
{
    reveal_strlit("fill");
    reveal_strlit("#ff0000");
    reveal_strlit("#ff8000");
    assert("fill"@ =~= seq!['f', 'i', 'l', 'l']);
    assert("#ff0000"@ =~= seq!['#', 'f', 'f', '0', '0', '0', '0']);
    assert("#ff8000"@ =~= seq!['#', 'f', 'f', '8', '0', '0', '0']);
    assert(has_no("fill"@, ';'));
    assert(has_no("fill"@, ':'));
    assert(has_no(fill_color(charge), ';'));
}

/// What the transform does to the style, exactly: at or above `300`
/// per-mille the `style` attribute is untouched; below, the new style value
/// parses back to the old style map (or the empty map when the old style was
/// absent or unreadable) with `fill` bound to the threshold color and every
/// other key's value kept.
pub proof fn lemma_transform_style(ps: Seq<(Seq<char>, Seq<char>)>, charge: nat, r: Seq<
    (Seq<char>, Seq<char>),
>)
    requires
        charge <= 1000,
        transform_spec(ps, charge) == Ok::<_, TransformError>(r),
    ensures
        charge >= 300 ==> assoc_get(r, "style"@) == assoc_get(ps, "style"@),
        charge < 300 ==> ({
            let sv = match assoc_get(ps, "style"@) {
                Option::Some(s) => s,
                Option::None => Seq::<char>::empty(),
            };
            let sm = match parse_style_spec(sv) {
                Option::Some(m) => m,
                Option::None => Seq::empty(),
            };
            &&& assoc_get(r, "style"@) is Some
            &&& parse_style_spec(assoc_get(r, "style"@).unwrap()) == Some(
                assoc_insert(sm, "fill"@, fill_color(charge)),
            )
            &&& assoc_get(assoc_insert(sm, "fill"@, fill_color(charge)), "fill"@) == Some(
                fill_color(charge),
            )
            &&& forall|k: Seq<char>|
                k != "fill"@ ==> #[trigger] assoc_get(
                    assoc_insert(sm, "fill"@, fill_color(charge)),
                    k,
                ) == assoc_get(sm, k)
        }),
{
    let ws = assoc_get(ps, "width"@).unwrap();
    let w = width_value(ws).unwrap();
    let wf = format_micro(scale(w, charge));
    let ps1 = assoc_insert(ps, "width"@, wf);
    lemma_assoc_insert(ps, "width"@, wf);
    assert("width"@ != "style"@) by {
        reveal_strlit("width");
        reveal_strlit("style");
        assert("width"@[0] == 'w');
        assert("style"@[0] == 's');
    }
    assert(assoc_get(ps1, "style"@) == assoc_get(ps, "style"@));
    if charge < 300 {
        let sv = match assoc_get(ps1, "style"@) {
            Option::Some(s) => s,
            Option::None => Seq::<char>::empty(),
        };
        let sm = match parse_style_spec(sv) {
            Option::Some(m) => m,
            Option::None => Seq::empty(),
        };
        let m2 = assoc_insert(sm, "fill"@, fill_color(charge));
        assert(forall|j: int| 0 <= j < sm.len() ==> style_pair_wf(#[trigger] sm[j])
            && keys_distinct(sm)) by {
            if parse_style_spec(sv) is Some {
                lemma_parse_style_wf(sv, sm);
            } else {
                assert(sm.len() == 0);
                assert(keys_distinct(sm));
            }
        }
        lemma_fill_pair_wf(charge);
        lemma_assoc_insert(sm, "fill"@, fill_color(charge));
        assert forall|j: int| 0 <= j < m2.len() implies style_pair_wf(#[trigger] m2[j]) by {
            if j == crate::attrs::assoc_find(sm, "fill"@) {
                assert(m2[j] == ("fill"@, fill_color(charge)));
            } else {
                assert(m2[j] == sm[j]);
            }
        }
        lemma_reparse_render(m2);
        lemma_assoc_insert(ps1, "style"@, render_style_spec(m2));
    }
}

} // verus!
