//! The style micro-codec: an SVG `style` attribute value is a `;`-separated
//! list of `key:value` pairs, each trimmed of surrounding whitespace. A
//! segment without a `:` is a parse error for the whole string; the empty
//! string is the empty map. Rendering joins `key:value` segments with `;` in
//! the map's stored order, and parsing a rendered map gives the map back.

use vstd::prelude::*;

use crate::attrs::{
    assoc_find, keys_distinct, lemma_assoc_insert, lemma_map_of_pairs_distinct,
    lemma_map_of_pairs_id, map_of_pairs, new_attr_map, pair_view, pairs_view, AttrMap,
};
use crate::text::{
    find_char, find_char_str, has_no, is_space, lemma_find_char_at, lemma_find_char_in_range,
    lemma_split_on_cons, lemma_split_on_segments, lemma_split_on_whole, lemma_trim_noop,
    lemma_trim_props, split_on, trim_spec, trim_str,
};

verus! {

/// A malformed style string: some `;`-separated segment has no `:`.
#[derive(Clone, Copy, Debug, PartialEq, Eq, Structural)]
pub struct StyleParseError;

/// The key and value of one trimmed style segment, or `None` when the
/// segment has no `:`. The key is everything before the first `:`.
pub open spec fn seg_pair(seg: Seq<char>) -> Option<(Seq<char>, Seq<char>)> {
    let t = trim_spec(seg);
    let i = find_char(t, ':');
    if 0 <= i < t.len() {
        Some((t.subrange(0, i), t.subrange(i + 1, t.len() as int)))
    } else {
        None
    }
}

/// The pairs of a segment list in order, or `None` when any segment is
/// malformed.
pub open spec fn raw_style_pairs(segs: Seq<Seq<char>>) -> Option<Seq<(Seq<char>, Seq<char>)>>
    decreases segs.len(),
{
    if segs.len() == 0 {
        Some(Seq::empty())
    } else {
        match seg_pair(segs[0]) {
            Option::None => None,
            Option::Some(p) => match raw_style_pairs(segs.drop_first()) {
                Option::None => None,
                Option::Some(ps) => Some(seq![p] + ps),
            },
        }
    }
}

/// What parsing a style string yields: the empty map for the empty string,
/// otherwise every segment's pair inserted in order (later duplicates
/// overwrite), or `None` on a malformed segment.
pub open spec fn parse_style_spec(s: Seq<char>) -> Option<Seq<(Seq<char>, Seq<char>)>> {
    if s.len() == 0 {
        Some(Seq::empty())
    } else {
        match raw_style_pairs(split_on(s, ';')) {
            Option::None => None,
            Option::Some(raw) => Some(map_of_pairs(raw)),
        }
    }
}

/// One rendered segment: `key:value`.
pub open spec fn style_segment(p: (Seq<char>, Seq<char>)) -> Seq<char> {
    p.0 + seq![':'] + p.1
}

/// The rendered style string: segments joined with `;`, empty map rendering
/// to the empty string.
pub open spec fn render_style_spec(ps: Seq<(Seq<char>, Seq<char>)>) -> Seq<char>
    decreases ps.len(),
{
    if ps.len() == 0 {
        Seq::empty()
    } else if ps.len() == 1 {
        style_segment(ps[0])
    } else {
        render_style_spec(ps.drop_last()) + seq![';'] + style_segment(ps.last())
    }
}

/// The key and value of one segment.
fn parse_segment(seg: &str) -> (r: Result<(String, String), StyleParseError>)
    ensures
        match r {
            Ok(p) => seg_pair(seg@) == Some(pair_view(p)),
            Err(_) => seg_pair(seg@) is None,
        },
{
    let t = trim_str(seg);
    let tn = t.unicode_len();
    let i = find_char_str(t, ':');
    if i == tn {
        Err(StyleParseError)
    } else {
        proof {
            lemma_find_char_in_range(t@, ':');
        }
        let k = t.substring_char(0, i);
        let v = t.substring_char(i + 1, tn);
        Ok((String::from_str(k), String::from_str(v)))
    }
}

/// The pairs of every `;`-separated segment of `s`, in order.
fn parse_segments(s: &str) -> (r: Result<Vec<(String, String)>, StyleParseError>)
    ensures
        match r {
            Ok(v) => raw_style_pairs(split_on(s@, ';')) == Some(pairs_view(v@)),
            Err(_) => raw_style_pairs(split_on(s@, ';')) is None,
        },
    decreases s@.len(),
{
    let n = s.unicode_len();
    let i = find_char_str(s, ';');
    proof {
        lemma_find_char_in_range(s@, ';');
    }
    if i == n {
        proof {
            assert(split_on(s@, ';') == seq![s@]);
            assert(seq![s@].drop_first() =~= Seq::<Seq<char>>::empty());
        }
        match parse_segment(s) {
            Err(e) => Err(e),
            Ok(p) => {
                let mut v: Vec<(String, String)> = Vec::new();
                v.push(p);
                proof {
                    let segs = seq![s@];
                    assert(segs[0] == s@);
                    assert(segs.drop_first() =~= Seq::<Seq<char>>::empty());
                    assert(raw_style_pairs(segs.drop_first()) == Some(
                        Seq::<(Seq<char>, Seq<char>)>::empty(),
                    ));
                    assert(seg_pair(segs[0]) == Some(pair_view(p)));
                    assert(raw_style_pairs(segs) == Some(
                        seq![pair_view(p)] + Seq::<(Seq<char>, Seq<char>)>::empty(),
                    ));
                    assert(seq![pair_view(p)] + Seq::<(Seq<char>, Seq<char>)>::empty()
                        =~= pairs_view(v@));
                }
                Ok(v)
            },
        }
    } else {
        let seg = s.substring_char(0, i);
        let rest = s.substring_char(i + 1, n);
        proof {
            assert(split_on(s@, ';') == seq![s@.subrange(0, i as int)] + split_on(
                s@.subrange(i as int + 1, n as int),
                ';',
            ));
            assert(split_on(s@, ';')[0] == seg@);
            assert(split_on(s@, ';').drop_first() =~= split_on(rest@, ';'));
        }
        match parse_segment(seg) {
            Err(e) => Err(e),
            Ok(p) => match parse_segments(rest) {
                Err(e) => Err(e),
                Ok(mut v) => {
                    v.insert(0, p);
                    proof {
                        assert(pairs_view(v@) =~= seq![pair_view(p)] + pairs_view(
                            v@.drop_first(),
                        ));
                    }
                    Ok(v)
                },
            },
        }
    }
}

/// Parses an SVG style attribute value into a key/value map: the empty
/// string gives the empty map; otherwise each `;`-separated segment must
/// hold a `:` and contributes the pair around its first `:`, trimmed of
/// surrounding whitespace, later duplicate keys overwriting earlier ones.
pub fn parse_style_map(style: &str) -> (r: Result<AttrMap, StyleParseError>)
    ensures
        match r {
            Ok(m) => parse_style_spec(style@) == Some(m@) && m.wf(),
            Err(_) => parse_style_spec(style@) is None,
        },
{
    if style.unicode_len() == 0 {
        let m = AttrMap::new();
        proof {
            assert(parse_style_spec(style@) == Some(m@));
        }
        return Ok(m);
    }
    match parse_segments(style) {
        Err(e) => Err(e),
        Ok(raw) => {
            let m = new_attr_map(&raw);
            Ok(m)
        },
    }
}

/// Renders a key/value map back to a style attribute value: `key:value`
/// segments joined with `;`, in the map's stored order; the empty map gives
/// the empty string.
pub fn map_as_style(map: &AttrMap) -> (r: String)
    ensures
        r@ == render_style_spec(map@),
{
    let n = map.len();
    let mut out = String::new();
    let mut i: usize = 0;
    proof {
        assert(map@.subrange(0, 0) =~= Seq::<(Seq<char>, Seq<char>)>::empty());
    }
    while i < n
        invariant
            0 <= i <= n,
            n == map@.len(),
            out@ == render_style_spec(map@.subrange(0, i as int)),
        decreases n - i,
    {
        let p = map.pair_at(i);
        if i > 0 {
            out.append(";");
        }
        out.append(p.0.as_str());
        out.append(":");
        out.append(p.1.as_str());
        proof {
            reveal_strlit(";");
            reveal_strlit(":");
            let pre = map@.subrange(0, i as int);
            let ext = map@.subrange(0, i + 1);
            assert(ext.drop_last() =~= pre);
            assert(ext.last() == map@[i as int]);
            if i == 0 {
                assert(out@ =~= style_segment(map@[0]));
            } else {
                assert(out@ =~= render_style_spec(pre) + seq![';'] + style_segment(
                    map@[i as int],
                ));
            }
        }
        i += 1;
    }
    proof {
        assert(map@.subrange(0, n as int) =~= map@);
    }
    out
}

/// The characters a parsed style pair can hold: no `;` on either side, no
/// `:` in the key, and no whitespace at the pair's outer edges — exactly
/// what renders back into a segment that re-parses to the same pair.
pub open spec fn style_pair_wf(p: (Seq<char>, Seq<char>)) -> bool {
    &&& has_no(p.0, ';')
    &&& has_no(p.0, ':')
    &&& has_no(p.1, ';')
    &&& (p.0.len() > 0 ==> !is_space(p.0[0]))
    &&& (p.1.len() > 0 ==> !is_space(p.1.last()))
}

proof fn lemma_seg_pair_wf(seg: Seq<char>, p: (Seq<char>, Seq<char>))
    requires
        has_no(seg, ';'),
        seg_pair(seg) == Some(p),
    ensures
        style_pair_wf(p),
{
    let t = trim_spec(seg);
    lemma_trim_props(seg, ';');
    lemma_find_char_in_range(t, ':');
    let i = find_char(t, ':');
    assert forall|j: int| 0 <= j < p.0.len() implies p.0[j] != ';' && p.0[j] != ':' by {
        assert(p.0[j] == t[j]);
    }
    assert forall|j: int| 0 <= j < p.1.len() implies p.1[j] != ';' by {
        assert(p.1[j] == t[j + i + 1]);
    }
    if p.0.len() > 0 {
        assert(p.0[0] == t[0]);
    }
    if p.1.len() > 0 {
        assert(p.1.last() == t.last());
    }
}

proof fn lemma_raw_pairs_wf(segs: Seq<Seq<char>>, raw: Seq<(Seq<char>, Seq<char>)>)
    requires
        forall|k: int| 0 <= k < segs.len() ==> has_no(#[trigger] segs[k], ';'),
        raw_style_pairs(segs) == Some(raw),
    ensures
        forall|j: int| 0 <= j < raw.len() ==> style_pair_wf(#[trigger] raw[j]),
    decreases segs.len(),
{
    if segs.len() > 0 {
        let p = seg_pair(segs[0]).unwrap();
        let rest = raw_style_pairs(segs.drop_first()).unwrap();
        lemma_seg_pair_wf(segs[0], p);
        assert forall|k: int| 0 <= k < segs.drop_first().len() implies has_no(
            #[trigger] segs.drop_first()[k],
            ';',
        ) by {
            assert(segs.drop_first()[k] == segs[k + 1]);
        }
        lemma_raw_pairs_wf(segs.drop_first(), rest);
        assert forall|j: int| 0 <= j < raw.len() implies style_pair_wf(#[trigger] raw[j]) by {
            if j == 0 {
                assert(raw[j] == p);
            } else {
                assert(raw[j] == rest[j - 1]);
            }
        }
    }
}

/// Every pair of the built map is one of the raw pairs.
proof fn lemma_map_of_pairs_members(raw: Seq<(Seq<char>, Seq<char>)>)
    ensures
        forall|j: int|
            0 <= j < map_of_pairs(raw).len() ==> exists|i: int|
                0 <= i < raw.len() && raw[i] == #[trigger] map_of_pairs(raw)[j],
    decreases raw.len(),
{
    if raw.len() > 0 {
        let d = raw.drop_last();
        let m0 = map_of_pairs(d);
        let m = map_of_pairs(raw);
        lemma_map_of_pairs_members(d);
        lemma_assoc_insert(m0, raw.last().0, raw.last().1);
        assert forall|j: int| 0 <= j < m.len() implies exists|i: int|
            0 <= i < raw.len() && raw[i] == #[trigger] m[j] by {
            if j == assoc_find(m0, raw.last().0) {
                assert(m[j] == (raw.last().0, raw.last().1));
                assert(raw.last() == (raw.last().0, raw.last().1));
                assert(raw[raw.len() - 1] == m[j]);
            } else {
                assert(0 <= j < m0.len()) by {
                    crate::attrs::lemma_assoc_find_props(m0, raw.last().0);
                }
                assert(m[j] == m0[j]);
                let i0 = choose|i: int| 0 <= i < d.len() && d[i] == m0[j];
                assert(d[i0] == raw[i0]);
                assert(raw[i0] == m[j]);
            }
        }
    }
}

/// A well-formed segment re-parses to its own pair.
proof fn lemma_segment_round_trip(p: (Seq<char>, Seq<char>))
    requires
        style_pair_wf(p),
    ensures
        has_no(style_segment(p), ';'),
        style_segment(p).len() > 0,
        seg_pair(style_segment(p)) == Some(p),
{
    let seg = style_segment(p);
    assert forall|j: int| 0 <= j < seg.len() implies seg[j] != ';' by {
        if j < p.0.len() {
            assert(seg[j] == p.0[j]);
        } else if j == p.0.len() {
            assert(seg[j] == ':');
        } else {
            assert(seg[j] == p.1[j - p.0.len() - 1]);
        }
    }
    assert(seg[p.0.len() as int] == ':');
    if p.0.len() > 0 {
        assert(seg[0] == p.0[0]);
    } else {
        assert(seg[0] == ':');
    }
    if p.1.len() > 0 {
        assert(seg.last() == p.1.last());
    } else {
        assert(seg.last() == ':');
    }
    lemma_trim_noop(seg);
    assert forall|j: int| 0 <= j < p.0.len() implies seg[j] != ':' by {
        assert(seg[j] == p.0[j]);
    }
    lemma_find_char_at(seg, ':', p.0.len() as int);
    assert(seg.subrange(0, p.0.len() as int) =~= p.0);
    assert(seg.subrange(p.0.len() as int + 1, seg.len() as int) =~= p.1);
}

/// Rendering unfolds from the left as one segment, a `;`, and the rest.
proof fn lemma_render_left_unfold(ps: Seq<(Seq<char>, Seq<char>)>)
    requires
        ps.len() >= 2,
    ensures
        render_style_spec(ps) == style_segment(ps[0]) + seq![';'] + render_style_spec(
            ps.drop_first(),
        ),
    decreases ps.len(),
{
    if ps.len() == 2 {
        assert(ps.drop_last() =~= seq![ps[0]]);
        assert(ps.drop_first() =~= seq![ps[1]]);
        assert(render_style_spec(seq![ps[0]]) == style_segment(ps[0]));
        assert(render_style_spec(seq![ps[1]]) == style_segment(ps[1]));
        assert(ps.last() == ps[1]);
    } else {
        let d = ps.drop_last();
        lemma_render_left_unfold(d);
        assert(d[0] == ps[0]);
        let q = ps.drop_first();
        assert(q.drop_last() =~= d.drop_first());
        assert(q.len() >= 2);
        assert(q.last() == ps.last());
        assert(render_style_spec(q) == render_style_spec(q.drop_last()) + seq![';']
            + style_segment(q.last()));
        assert((style_segment(ps[0]) + seq![';'] + render_style_spec(d.drop_first())) + seq![';']
            + style_segment(ps.last()) =~= style_segment(ps[0]) + seq![';'] + (render_style_spec(
            d.drop_first(),
        ) + seq![';'] + style_segment(ps.last())));
    }
}

/// What parsing guarantees of its result: every pair is well formed and the
/// keys are distinct.
pub proof fn lemma_parse_style_wf(s: Seq<char>, m: Seq<(Seq<char>, Seq<char>)>)
    requires
        parse_style_spec(s) == Some(m),
    ensures
        forall|j: int| 0 <= j < m.len() ==> style_pair_wf(#[trigger] m[j]),
        keys_distinct(m),
{
    if s.len() == 0 {
        assert(m =~= Seq::<(Seq<char>, Seq<char>)>::empty());
    } else {
        let segs = split_on(s, ';');
        let raw = raw_style_pairs(segs).unwrap();
        lemma_split_on_segments(s, ';');
        lemma_raw_pairs_wf(segs, raw);
        lemma_map_of_pairs_members(raw);
        lemma_map_of_pairs_distinct(raw);
        assert forall|j: int| 0 <= j < m.len() implies style_pair_wf(#[trigger] m[j]) by {
            let i = choose|i: int| 0 <= i < raw.len() && raw[i] == m[j];
            assert(style_pair_wf(raw[i]));
        }
    }
}

/// Re-parsing a rendered well-formed map gives back its pairs, raw and in
/// order.
proof fn lemma_render_reparse(ps: Seq<(Seq<char>, Seq<char>)>)
    requires
        ps.len() >= 1,
        forall|j: int| 0 <= j < ps.len() ==> style_pair_wf(#[trigger] ps[j]),
    ensures
        raw_style_pairs(split_on(render_style_spec(ps), ';')) == Some(ps),
    decreases ps.len(),
{
    lemma_segment_round_trip(ps[0]);
    if ps.len() == 1 {
        let seg = style_segment(ps[0]);
        lemma_split_on_whole(seg, ';');
        assert(render_style_spec(ps) == seg);
        let segs = split_on(seg, ';');
        assert(segs == seq![seg]);
        assert(segs[0] == seg);
        assert(segs.len() == 1);
        assert(segs.drop_first() =~= Seq::<Seq<char>>::empty());
        assert(raw_style_pairs(segs.drop_first()) == Some(Seq::<(Seq<char>, Seq<char>)>::empty()));
        assert(seg_pair(segs[0]) == Some(ps[0]));
        assert(raw_style_pairs(segs) == Some(seq![ps[0]] + Seq::<(Seq<char>, Seq<char>)>::empty()));
        assert(seq![ps[0]] + Seq::<(Seq<char>, Seq<char>)>::empty() =~= ps);
    } else {
        lemma_render_left_unfold(ps);
        let rest = ps.drop_first();
        assert forall|j: int| 0 <= j < rest.len() implies style_pair_wf(#[trigger] rest[j]) by {
            assert(rest[j] == ps[j + 1]);
        }
        lemma_render_reparse(rest);
        lemma_split_on_cons(style_segment(ps[0]), ';', render_style_spec(rest));
        let segs = split_on(render_style_spec(ps), ';');
        assert(segs[0] == style_segment(ps[0]));
        assert(segs.len() >= 2);
        assert(segs.drop_first() =~= split_on(render_style_spec(rest), ';'));
        assert(seg_pair(segs[0]) == Some(ps[0]));
        assert(raw_style_pairs(segs.drop_first()) == Some(rest));
        assert(raw_style_pairs(segs) == Some(seq![ps[0]] + rest));
        assert(seq![ps[0]] + rest =~= ps);
    }
}

/// Parsing the rendering of any map of well-formed pairs with distinct keys
/// gives the map back exactly.
pub proof fn lemma_reparse_render(m: Seq<(Seq<char>, Seq<char>)>)
    requires
        forall|j: int| 0 <= j < m.len() ==> style_pair_wf(#[trigger] m[j]),
        keys_distinct(m),
    ensures
        parse_style_spec(render_style_spec(m)) == Some(m),
{
    if m.len() == 0 {
    } else {
        lemma_render_reparse(m);
        lemma_map_of_pairs_id(m);
        assert(render_style_spec(m).len() > 0) by {
            lemma_segment_round_trip(m[0]);
            if m.len() == 1 {
            } else {
                lemma_render_left_unfold(m);
            }
        }
    }
}

/// The style codec round-trips: rendering a parsed style string and parsing
/// it again reproduces the same key/value map, in the same stored order.
pub proof fn lemma_style_round_trip(s: Seq<char>, m: Seq<(Seq<char>, Seq<char>)>)
    requires
        parse_style_spec(s) == Some(m),
    ensures
        parse_style_spec(render_style_spec(m)) == Some(m),
{
    lemma_parse_style_wf(s, m);
    if s.len() == 0 {
        assert(m =~= Seq::<(Seq<char>, Seq<char>)>::empty());
    }
    lemma_reparse_render(m);
}

} // verus!
