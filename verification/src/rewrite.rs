//! The link rewriter. It scans an HTML body for anchor tags, replaces each
//! `href` destination with a redirect URL of the form
//! `{base}/click/{token}/{index}`, and returns the original destinations in
//! body order. Everything outside the `href` values, the other attributes
//! included, is preserved byte for byte. It also builds the open-tracking
//! pixel appended to outbound bodies.

use vstd::prelude::*;

use crate::text::{dec_digits, push_dec};

verus! {

pub open spec fn is_ws(b: u8) -> bool {
    b == 32 || b == 9 || b == 10 || b == 13
}

pub open spec fn is_quote(b: u8) -> bool {
    b == 34 || b == 39
}

/// Position of the first `>` at or after `j`; -1 when there is none.
pub open spec fn find_gt(s: Seq<u8>, j: int) -> int
    decreases s.len() - j,
{
    if j < 0 || j >= s.len() {
        -1
    } else if s[j] == 62 {
        j
    } else {
        find_gt(s, j + 1)
    }
}

/// Position of the first quote character at or after `j`; -1 when there is
/// none.
pub open spec fn find_quote(s: Seq<u8>, j: int) -> int
    decreases s.len() - j,
{
    if j < 0 || j >= s.len() {
        -1
    } else if is_quote(s[j]) {
        j
    } else {
        find_quote(s, j + 1)
    }
}

/// `href=` stands at `j`, preceded by a whitespace byte.
pub open spec fn href_candidate(s: Seq<u8>, j: int) -> bool {
    &&& 1 <= j
    &&& j + 5 <= s.len()
    &&& s[j] == 104
    &&& s[j + 1] == 114
    &&& s[j + 2] == 101
    &&& s[j + 3] == 102
    &&& s[j + 4] == 61
    &&& is_ws(s[j - 1])
}

/// Position of the first whitespace-preceded `href=` at or after `j`,
/// scanning only until the tag closes: a `>` or the end of input stops the
/// scan with -1.
pub open spec fn find_href(s: Seq<u8>, j: int) -> int
    decreases s.len() - j,
{
    if j < 0 || j >= s.len() {
        -1
    } else if s[j] == 62 {
        -1
    } else if href_candidate(s, j) {
        j
    } else {
        find_href(s, j + 1)
    }
}

/// The shape of one recognized anchor tag: the `href` value spans
/// `[us, ue)`, and the tag's closing `>` is the byte before `end`.
pub struct AnchorSpec {
    pub us: int,
    pub ue: int,
    pub end: int,
}

/// Recognizes an anchor tag at position `i`: `<a`, whitespace, optional
/// other attributes, `href=` with a quoted non-empty value, optional
/// trailing attributes, `>`. Only the quoted `href` value is singled out for
/// substitution.
pub open spec fn anchor_at(s: Seq<u8>, i: int) -> Option<AnchorSpec> {
    if !(0 <= i && i + 2 < s.len() && s[i] == 60 && s[i + 1] == 97 && is_ws(s[i + 2])) {
        None
    } else {
        let h = find_href(s, i + 3);
        if h == -1 {
            None
        } else if !(h + 5 < s.len() && is_quote(s[h + 5])) {
            None
        } else {
            let e = find_quote(s, h + 6);
            if e == -1 || e == h + 6 {
                None
            } else {
                let g = find_gt(s, e + 1);
                if g == -1 {
                    None
                } else {
                    Some(AnchorSpec { us: h + 6, ue: e, end: g + 1 })
                }
            }
        }
    }
}

pub proof fn lemma_find_gt_bounds(s: Seq<u8>, j: int)
    ensures
        find_gt(s, j) == -1 || (j <= find_gt(s, j) < s.len()),
    decreases s.len() - j,
{
    if 0 <= j < s.len() && s[j] != 62 {
        lemma_find_gt_bounds(s, j + 1);
    }
}

pub proof fn lemma_find_quote_bounds(s: Seq<u8>, j: int)
    ensures
        find_quote(s, j) == -1 || (j <= find_quote(s, j) < s.len()),
    decreases s.len() - j,
{
    if 0 <= j < s.len() && !is_quote(s[j]) {
        lemma_find_quote_bounds(s, j + 1);
    }
}

pub proof fn lemma_find_href_bounds(s: Seq<u8>, j: int)
    ensures
        find_href(s, j) == -1 || (j <= find_href(s, j) && find_href(s, j) + 5 <= s.len()),
    decreases s.len() - j,
{
    if 0 <= j < s.len() && s[j] != 62 && !href_candidate(s, j) {
        lemma_find_href_bounds(s, j + 1);
    }
}

/// A recognized anchor lies strictly inside the input, after `i`.
pub proof fn lemma_anchor_at_bounds(s: Seq<u8>, i: int)
    ensures
        match anchor_at(s, i) {
            Some(a) => i + 2 < a.us && a.us < a.ue && a.ue < a.end && a.end <= s.len(),
            None => true,
        },
{
    if anchor_at(s, i) is Some {
        lemma_find_href_bounds(s, i + 3);
        let h = find_href(s, i + 3);
        lemma_find_quote_bounds(s, h + 6);
        let e = find_quote(s, h + 6);
        lemma_find_gt_bounds(s, e + 1);
    }
}

/// The original destinations of the anchors at or after `i`, in body order.
pub open spec fn anchor_urls(s: Seq<u8>, i: int) -> Seq<Seq<u8>>
    decreases s.len() - i,
    via anchor_urls_decreases
{
    if i < 0 || i >= s.len() {
        Seq::empty()
    } else {
        match anchor_at(s, i) {
            Some(a) => seq![s.subrange(a.us, a.ue)] + anchor_urls(s, a.end),
            None => anchor_urls(s, i + 1),
        }
    }
}

#[via_fn]
proof fn anchor_urls_decreases(s: Seq<u8>, i: int) {
    lemma_anchor_at_bounds(s, i);
}

/// "/click/" as bytes.
pub open spec fn click_path() -> Seq<u8> {
    seq![47u8, 99u8, 108u8, 105u8, 99u8, 107u8, 47u8]
}

/// "/track/" as bytes.
pub open spec fn track_path() -> Seq<u8> {
    seq![47u8, 116u8, 114u8, 97u8, 99u8, 107u8, 47u8]
}

/// The redirect destination `{base}/click/{token}/{index}`.
pub open spec fn redirect_url(base: Seq<u8>, token: u128, idx: int) -> Seq<u8> {
    base + click_path() + dec_digits(token) + seq![47u8] + dec_digits(idx as u128)
}

/// The body with every anchor at or after `i` rewritten, numbering the
/// anchors from `idx` on.
pub open spec fn rewritten_body(s: Seq<u8>, i: int, base: Seq<u8>, token: u128, idx: int) -> Seq<
    u8,
>
    decreases s.len() - i,
    via rewritten_body_decreases
{
    if i < 0 || i >= s.len() {
        Seq::empty()
    } else {
        match anchor_at(s, i) {
            Some(a) => s.subrange(i, a.us) + redirect_url(base, token, idx) + s.subrange(
                a.ue,
                a.end,
            ) + rewritten_body(s, a.end, base, token, idx + 1),
            None => seq![s[i]] + rewritten_body(s, i + 1, base, token, idx),
        }
    }
}

#[via_fn]
proof fn rewritten_body_decreases(s: Seq<u8>, i: int, base: Seq<u8>, token: u128, idx: int) {
    lemma_anchor_at_bounds(s, i);
}

/// A body with no anchors left is kept unchanged.
pub proof fn lemma_no_anchors_unchanged(s: Seq<u8>, i: int, base: Seq<u8>, token: u128, idx: int)
    requires
        0 <= i <= s.len(),
        anchor_urls(s, i).len() == 0,
    ensures
        rewritten_body(s, i, base, token, idx) == s.subrange(i, s.len() as int),
    decreases s.len() - i,
{
    if i < s.len() {
        match anchor_at(s, i) {
            Some(a) => {
                assert(anchor_urls(s, i).len() >= 1);
            },
            None => {
                lemma_no_anchors_unchanged(s, i + 1, base, token, idx);
                assert(seq![s[i]] + s.subrange(i + 1, s.len() as int) =~= s.subrange(
                    i,
                    s.len() as int,
                ));
            },
        }
    } else {
        assert(s.subrange(i, s.len() as int) =~= Seq::<u8>::empty());
    }
}

/// The views of a list of byte vectors.
pub open spec fn views_of(us: Seq<Vec<u8>>) -> Seq<Seq<u8>> {
    us.map_values(|u: Vec<u8>| u@)
}

fn ws_byte(b: u8) -> (r: bool)
    ensures
        r == is_ws(b),
{
    b == 32 || b == 9 || b == 10 || b == 13
}

fn quote_byte(b: u8) -> (r: bool)
    ensures
        r == is_quote(b),
{
    b == 34 || b == 39
}

fn scan_gt(s: &Vec<u8>, j0: usize) -> (r: Option<usize>)
    ensures
        match r {
            Some(g) => find_gt(s@, j0 as int) == g as int && g < s@.len(),
            None => find_gt(s@, j0 as int) == -1,
        },
{
    let mut j = j0;
    #[verifier::loop_isolation(false)]
    while j < s.len()
        invariant
            j0 <= j,
            find_gt(s@, j0 as int) == find_gt(s@, j as int),
        decreases s.len() - j,
    {
        if s[j] == 62 {
            return Some(j);
        }
        j += 1;
    }
    None
}

fn scan_quote(s: &Vec<u8>, j0: usize) -> (r: Option<usize>)
    ensures
        match r {
            Some(q) => find_quote(s@, j0 as int) == q as int && q < s@.len(),
            None => find_quote(s@, j0 as int) == -1,
        },
{
    let mut j = j0;
    #[verifier::loop_isolation(false)]
    while j < s.len()
        invariant
            j0 <= j,
            find_quote(s@, j0 as int) == find_quote(s@, j as int),
        decreases s.len() - j,
    {
        if quote_byte(s[j]) {
            return Some(j);
        }
        j += 1;
    }
    None
}

/// Whether a whitespace-preceded `href=` stands at `j`.
fn href_here(s: &Vec<u8>, j: usize) -> (r: bool)
    requires
        j < s@.len(),
    ensures
        r == href_candidate(s@, j as int),
{
    if j < 1 {
        return false;
    }
    if s.len() - j < 5 {
        return false;
    }
    s[j] == 104 && s[j + 1] == 114 && s[j + 2] == 101 && s[j + 3] == 102 && s[j + 4] == 61
        && ws_byte(s[j - 1])
}

fn scan_href(s: &Vec<u8>, j0: usize) -> (r: Option<usize>)
    ensures
        match r {
            Some(h) => find_href(s@, j0 as int) == h as int && h as int + 5 <= s@.len(),
            None => find_href(s@, j0 as int) == -1,
        },
{
    let mut j = j0;
    #[verifier::loop_isolation(false)]
    while j < s.len()
        invariant
            j0 <= j,
            find_href(s@, j0 as int) == find_href(s@, j as int),
        decreases s.len() - j,
    {
        if s[j] == 62 {
            return None;
        }
        if href_here(s, j) {
            return Some(j);
        }
        j += 1;
    }
    None
}

/// Recognizes an anchor tag at `i`, returning the `href` value span and the
/// position just past the closing `>`.
fn find_anchor(s: &Vec<u8>, i: usize) -> (r: Option<(usize, usize, usize)>)
    requires
        i < s@.len(),
    ensures
        match r {
            Some((us, ue, end)) => {
                &&& anchor_at(s@, i as int) == Some(
                    AnchorSpec { us: us as int, ue: ue as int, end: end as int },
                )
                &&& i < us < ue < end <= s@.len()
            },
            None => anchor_at(s@, i as int) is None,
        },
{
    proof {
        lemma_anchor_at_bounds(s@, i as int);
    }
    if s.len() - i < 3 {
        return None;
    }
    if !(s[i] == 60 && s[i + 1] == 97 && ws_byte(s[i + 2])) {
        return None;
    }
    let h = match scan_href(s, i + 3) {
        Some(h) => h,
        None => {
            return None;
        },
    };
    if s.len() - h < 6 {
        return None;
    }
    if !quote_byte(s[h + 5]) {
        return None;
    }
    let e = match scan_quote(s, h + 6) {
        Some(e) => e,
        None => {
            return None;
        },
    };
    if e == h + 6 {
        return None;
    }
    let g = match scan_gt(s, e + 1) {
        Some(g) => g,
        None => {
            return None;
        },
    };
    Some((h + 6, e, g + 1))
}

/// Appends `s[from..to]` to `out`.
fn append_range(out: &mut Vec<u8>, s: &Vec<u8>, from: usize, to: usize)
    requires
        from <= to <= s@.len(),
    ensures
        final(out)@ == old(out)@ + s@.subrange(from as int, to as int),
{
    let mut j = from;
    #[verifier::loop_isolation(false)]
    while j < to
        invariant
            from <= j <= to,
            out@ == old(out)@ + s@.subrange(from as int, j as int),
        decreases to - j,
    {
        out.push(s[j]);
        j += 1;
        proof {
            assert(out@ =~= old(out)@ + s@.subrange(from as int, j as int));
        }
    }
    proof {
        assert(out@ =~= old(out)@ + s@.subrange(from as int, to as int));
    }
}

/// Copies `s[from..to]` into a fresh vector.
pub(crate) fn copy_range(s: &Vec<u8>, from: usize, to: usize) -> (r: Vec<u8>)
    requires
        from <= to <= s@.len(),
    ensures
        r@ == s@.subrange(from as int, to as int),
{
    let mut r: Vec<u8> = Vec::new();
    append_range(&mut r, s, from, to);
    r
}

/// Appends `{base}/click/{token}/{idx}` to `out`.
fn push_redirect(out: &mut Vec<u8>, base: &Vec<u8>, token: u128, idx: usize)
    ensures
        final(out)@ == old(out)@ + redirect_url(base@, token, idx as int),
{
    append_range(out, base, 0, base.len());
    out.push(47);
    out.push(99);
    out.push(108);
    out.push(105);
    out.push(99);
    out.push(107);
    out.push(47);
    push_dec(out, token);
    out.push(47);
    push_dec(out, idx as u128);
    proof {
        assert(base@.subrange(0, base@.len() as int) =~= base@);
        assert(out@ =~= old(out)@ + redirect_url(base@, token, idx as int));
    }
}

/// The result of a rewrite: the new body and the original destinations, in
/// body order (the destination of anchor `k` is `urls[k]`).
pub struct LinkRewrite {
    pub body: Vec<u8>,
    pub urls: Vec<Vec<u8>>,
}

/// Rewrites every anchor destination in `body` to
/// `{base}/click/{token}/{index}`, indices counted from 0 in body order, and
/// returns the original destinations.
pub fn rewrite_links(body: &Vec<u8>, base: &Vec<u8>, token: u128) -> (r: LinkRewrite)
    ensures
        r.body@ == rewritten_body(body@, 0, base@, token, 0),
        views_of(r.urls@) == anchor_urls(body@, 0),
{
    let mut out: Vec<u8> = Vec::new();
    let mut urls: Vec<Vec<u8>> = Vec::new();
    let mut i: usize = 0;
    #[verifier::loop_isolation(false)]
    while i < body.len()
        invariant
            i <= body@.len(),
            rewritten_body(body@, 0, base@, token, 0) == out@ + rewritten_body(
                body@,
                i as int,
                base@,
                token,
                urls@.len() as int,
            ),
            anchor_urls(body@, 0) == views_of(urls@) + anchor_urls(body@, i as int),
        decreases body@.len() - i,
    {
        let ghost idx = urls@.len() as int;
        match find_anchor(body, i) {
            Some((us, ue, end)) => {
                let ghost pre_out = out@;
                append_range(&mut out, body, i, us);
                push_redirect(&mut out, base, token, urls.len());
                append_range(&mut out, body, ue, end);
                let u = copy_range(body, us, ue);
                let ghost pre_urls = urls@;
                urls.push(u);
                proof {
                    assert(out@ =~= pre_out + (body@.subrange(i as int, us as int) + redirect_url(
                        base@,
                        token,
                        idx,
                    ) + body@.subrange(ue as int, end as int)));
                    assert(views_of(urls@) =~= views_of(pre_urls) + seq![
                        body@.subrange(us as int, ue as int),
                    ]);
                    assert(rewritten_body(body@, 0, base@, token, 0) =~= out@ + rewritten_body(
                        body@,
                        end as int,
                        base@,
                        token,
                        idx + 1,
                    ));
                    assert(anchor_urls(body@, 0) =~= views_of(urls@) + anchor_urls(
                        body@,
                        end as int,
                    ));
                }
                i = end;
            },
            None => {
                out.push(body[i]);
                proof {
                    assert(rewritten_body(body@, 0, base@, token, 0) =~= out@ + rewritten_body(
                        body@,
                        i + 1,
                        base@,
                        token,
                        idx,
                    ));
                }
                i += 1;
            },
        }
    }
    proof {
        assert(rewritten_body(body@, 0, base@, token, 0) =~= out@);
        assert(anchor_urls(body@, 0) =~= views_of(urls@));
    }
    LinkRewrite { body: out, urls }
}

/// `<img src="` as bytes.
pub open spec fn img_open() -> Seq<u8> {
    seq![60u8, 105u8, 109u8, 103u8, 32u8, 115u8, 114u8, 99u8, 61u8, 34u8]
}

/// `" width="1" height="1" alt="" style="display:none;" />` as bytes.
pub open spec fn img_close() -> Seq<u8> {
    seq![
        34u8, 32u8, 119u8, 105u8, 100u8, 116u8, 104u8, 61u8, 34u8, 49u8, 34u8, 32u8, 104u8, 101u8,
        105u8, 103u8, 104u8, 116u8, 61u8, 34u8, 49u8, 34u8, 32u8, 97u8, 108u8, 116u8, 61u8, 34u8,
        34u8, 32u8, 115u8, 116u8, 121u8, 108u8, 101u8, 61u8, 34u8, 100u8, 105u8, 115u8, 112u8,
        108u8, 97u8, 121u8, 58u8, 110u8, 111u8, 110u8, 101u8, 59u8, 34u8, 32u8, 47u8, 62u8,
    ]
}

/// The open-tracking pixel: an invisible one-by-one image whose source is
/// `{base}/track/{token}`.
pub open spec fn pixel_bytes(base: Seq<u8>, token: u128) -> Seq<u8> {
    img_open() + base + track_path() + dec_digits(token) + img_close()
}

fn push_img_open(out: &mut Vec<u8>)
    ensures
        final(out)@ == old(out)@ + img_open(),
{
    out.push(60);
    out.push(105);
    out.push(109);
    out.push(103);
    out.push(32);
    out.push(115);
    out.push(114);
    out.push(99);
    out.push(61);
    out.push(34);
    proof {
        assert(out@ =~= old(out)@ + img_open());
    }
}

fn push_track_path(out: &mut Vec<u8>)
    ensures
        final(out)@ == old(out)@ + track_path(),
{
    out.push(47);
    out.push(116);
    out.push(114);
    out.push(97);
    out.push(99);
    out.push(107);
    out.push(47);
    proof {
        assert(out@ =~= old(out)@ + track_path());
    }
}

#[verifier::rlimit(60)]
fn push_img_close(out: &mut Vec<u8>)
    ensures
        final(out)@ == old(out)@ + img_close(),
{
    out.push(34);
    out.push(32);
    out.push(119);
    out.push(105);
    out.push(100);
    out.push(116);
    out.push(104);
    out.push(61);
    out.push(34);
    out.push(49);
    out.push(34);
    out.push(32);
    out.push(104);
    out.push(101);
    out.push(105);
    out.push(103);
    out.push(104);
    out.push(116);
    out.push(61);
    out.push(34);
    out.push(49);
    out.push(34);
    out.push(32);
    out.push(97);
    out.push(108);
    out.push(116);
    out.push(61);
    out.push(34);
    out.push(34);
    out.push(32);
    out.push(115);
    out.push(116);
    out.push(121);
    out.push(108);
    out.push(101);
    out.push(61);
    out.push(34);
    out.push(100);
    out.push(105);
    out.push(115);
    out.push(112);
    out.push(108);
    out.push(97);
    out.push(121);
    out.push(58);
    out.push(110);
    out.push(111);
    out.push(110);
    out.push(101);
    out.push(59);
    out.push(34);
    out.push(32);
    out.push(47);
    out.push(62);
    proof {
        assert(out@ =~= old(out)@ + img_close());
    }
}

/// Appends the open-tracking pixel for `token` to `body`.
pub fn append_pixel(body: &mut Vec<u8>, base: &Vec<u8>, token: u128)
    ensures
        final(body)@ == old(body)@ + pixel_bytes(base@, token),
{
    push_img_open(body);
    append_range(body, base, 0, base.len());
    push_track_path(body);
    push_dec(body, token);
    push_img_close(body);
    proof {
        assert(base@.subrange(0, base@.len() as int) =~= base@);
        assert(body@ =~= old(body)@ + pixel_bytes(base@, token));
    }
}

} // verus!
