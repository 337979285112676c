//! Clean-up of JSON-RPC request bodies sent by clients that mangle their
//! quoting: trimming, and the repairs tried before giving up on a body.
use vstd::prelude::*;

verus! {

/// ASCII whitespace as `u8::is_ascii_whitespace` defines it: space, tab,
/// line feed, form feed, carriage return.
pub open spec fn is_ascii_whitespace(b: u8) -> bool {
    b == 0x20 || b == 0x09 || b == 0x0A || b == 0x0C || b == 0x0D
}

/// A byte trimmed from either end of a body: whitespace or NUL.
pub open spec fn is_padding(b: u8) -> bool {
    is_ascii_whitespace(b) || b == 0
}

fn padding(b: u8) -> (r: bool)
    ensures
        r == is_padding(b),
{
    b == 0x20 || b == 0x09 || b == 0x0A || b == 0x0C || b == 0x0D || b == 0
}

/// Where the trimmed body starts and ends: the padding at both ends is
/// left out, all of it.
pub open spec fn trimmed_bounds(body: Seq<u8>, start: int, end: int) -> bool {
    &&& 0 <= start <= end <= body.len()
    &&& forall|i: int| 0 <= i < start ==> is_padding(#[trigger] body[i])
    &&& forall|i: int| end <= i < body.len() ==> is_padding(#[trigger] body[i])
    &&& start < end ==> !is_padding(body[start]) && !is_padding(body[end - 1])
}

/// The body without the whitespace and NUL bytes at its two ends.
pub fn trim_body(body: &[u8]) -> (r: &[u8])
    ensures
        exists|start: int, end: int|
            trimmed_bounds(body@, start, end) && r@ == body@.subrange(start, end),
{
    let mut start: usize = 0;
    while start < body.len() && padding(body[start])
        invariant
            start <= body@.len(),
            forall|i: int| 0 <= i < start ==> is_padding(#[trigger] body@[i]),
        decreases body@.len() - start,
    {
        start = start + 1;
    }
    let mut end: usize = body.len();
    while end > start && padding(body[end - 1])
        invariant
            start <= end <= body@.len(),
            forall|i: int| end <= i < body@.len() ==> is_padding(#[trigger] body@[i]),
        decreases end - start,
    {
        end = end - 1;
    }
    let r = &body[start..end];
    assert(trimmed_bounds(body@, start as int, end as int));
    r
}

/// The body without its NUL bytes.
pub fn strip_nul(body: &[u8]) -> (r: Vec<u8>)
    ensures
        r@ == body@.filter(|b: u8| b != 0),
{
    let mut out: Vec<u8> = Vec::new();
    let mut i: usize = 0;
    while i < body.len()
        invariant
            i <= body@.len(),
            out@ == body@.take(i as int).filter(|b: u8| b != 0),
        decreases body@.len() - i,
    {
        proof {
            reveal(Seq::filter);
            assert(body@.take(i + 1).drop_last() =~= body@.take(i as int));
            assert(body@.take(i + 1).last() == body@[i as int]);
        }
        if body[i] != 0 {
            out.push(body[i]);
        }
        i = i + 1;
    }
    proof {
        assert(body@.take(i as int) =~= body@);
    }
    out
}

/// Turning every `\"` into `"`, from position `i` on.
pub open spec fn unescape_from(b: Seq<u8>, i: nat) -> Seq<u8>
    decreases b.len() - i,
{
    if i >= b.len() {
        Seq::empty()
    } else if b[i as int] == 0x5c && i + 1 < b.len() && b[i + 1int] == 0x22 {
        seq![0x22u8] + unescape_from(b, i + 2)
    } else {
        seq![b[i as int]] + unescape_from(b, i + 1)
    }
}

/// The body begins `{\"` or `[{\"`: a JSON object whose quotes were escaped.
pub open spec fn starts_escaped(b: Seq<u8>) -> bool {
    (b.len() >= 3 && b[0] == 0x7b && b[1] == 0x5c && b[2] == 0x22) || (b.len() >= 4 && b[0] == 0x5b
        && b[1] == 0x7b && b[2] == 0x5c && b[3] == 0x22)
}

/// For a trimmed body that begins with an escaped object, the body with
/// `\"` turned into `"`; `None` for any other body.
pub fn unescape_quotes(trimmed: &[u8]) -> (r: Option<Vec<u8>>)
    ensures
        starts_escaped(trimmed@) ==> (r matches Some(v) && v@ == unescape_from(trimmed@, 0)),
        !starts_escaped(trimmed@) ==> r is None,
{
    let n = trimmed.len();
    let escaped = (n >= 3 && trimmed[0] == 0x7b && trimmed[1] == 0x5c && trimmed[2] == 0x22) || (n
        >= 4 && trimmed[0] == 0x5b && trimmed[1] == 0x7b && trimmed[2] == 0x5c && trimmed[3] == 0x22);
    if !escaped {
        return None;
    }
    let mut out: Vec<u8> = Vec::new();
    let mut i: usize = 0;
    while i < n
        invariant
            n == trimmed@.len(),
            i <= n + 1,
            out@ + unescape_from(trimmed@, i as nat) == unescape_from(trimmed@, 0),
        decreases n + 1 - i,
    {
        if trimmed[i] == 0x5c && i + 1 < n && trimmed[i + 1] == 0x22 {
            out.push(0x22);
            proof {
                assert(out@ + unescape_from(trimmed@, (i + 2) as nat) =~= (out@.drop_last() + (seq![
                    0x22u8,
                ] + unescape_from(trimmed@, (i + 2) as nat))));
            }
            i = i + 2;
        } else {
            out.push(trimmed[i]);
            proof {
                assert(out@ + unescape_from(trimmed@, (i + 1) as nat) =~= (out@.drop_last() + (seq![
                    trimmed@[i as int],
                ] + unescape_from(trimmed@, (i + 1) as nat))));
            }
            i = i + 1;
        }
    }
    proof {
        assert(unescape_from(trimmed@, i as nat) =~= Seq::<u8>::empty());
        assert(out@ =~= out@ + unescape_from(trimmed@, i as nat));
    }
    Some(out)
}

/// Quotes put back into a body that lost them but kept their backslashes:
/// `\:` becomes `":`, `\,` becomes `",`, any other `\` becomes `"`.
pub open spec fn requote_from(b: Seq<u8>, i: nat) -> Seq<u8>
    decreases b.len() - i,
{
    if i >= b.len() {
        Seq::empty()
    } else if b[i as int] == 0x5c {
        if i + 1 < b.len() && b[i + 1int] == 0x3a {
            seq![0x22u8, 0x3au8] + requote_from(b, i + 2)
        } else if i + 1 < b.len() && b[i + 1int] == 0x2c {
            seq![0x22u8, 0x2cu8] + requote_from(b, i + 2)
        } else {
            seq![0x22u8] + requote_from(b, i + 1)
        }
    } else {
        seq![b[i as int]] + requote_from(b, i + 1)
    }
}

/// For a body without any `"` but with some `\`, the body with its quotes
/// put back; `None` for any other body.
pub fn requote_backslashes(body: &[u8]) -> (r: Option<Vec<u8>>)
    ensures
        ((!body@.contains(0x22u8) && body@.contains(0x5cu8)) ==> (r matches Some(v) && v@
            == requote_from(body@, 0))),
        (body@.contains(0x22u8) || !body@.contains(0x5cu8)) ==> r is None,
{
    let n = body.len();
    let mut has_quote = false;
    let mut has_backslash = false;
    let mut k: usize = 0;
    while k < n
        invariant
            n == body@.len(),
            k <= n,
            has_quote == (exists|j: int| 0 <= j < k && body@[j] == 0x22u8),
            has_backslash == (exists|j: int| 0 <= j < k && body@[j] == 0x5cu8),
        decreases n - k,
    {
        if body[k] == 0x22 {
            has_quote = true;
        }
        if body[k] == 0x5c {
            has_backslash = true;
        }
        k = k + 1;
    }
    if has_quote || !has_backslash {
        return None;
    }
    let mut out: Vec<u8> = Vec::new();
    let mut i: usize = 0;
    while i < n
        invariant
            n == body@.len(),
            i <= n + 1,
            out@ + requote_from(body@, i as nat) == requote_from(body@, 0),
        decreases n + 1 - i,
    {
        if body[i] == 0x5c {
            if i + 1 < n && body[i + 1] == 0x3a {
                out.push(0x22);
                out.push(0x3a);
                proof {
                    assert(out@ + requote_from(body@, (i + 2) as nat) =~= (out@.drop_last().drop_last() + (
                    seq![0x22u8, 0x3au8] + requote_from(body@, (i + 2) as nat))));
                }
                i = i + 2;
            } else if i + 1 < n && body[i + 1] == 0x2c {
                out.push(0x22);
                out.push(0x2c);
                proof {
                    assert(out@ + requote_from(body@, (i + 2) as nat) =~= (out@.drop_last().drop_last() + (
                    seq![0x22u8, 0x2cu8] + requote_from(body@, (i + 2) as nat))));
                }
                i = i + 2;
            } else {
                out.push(0x22);
                proof {
                    assert(out@ + requote_from(body@, (i + 1) as nat) =~= (out@.drop_last() + (seq![
                        0x22u8,
                    ] + requote_from(body@, (i + 1) as nat))));
                }
                i = i + 1;
            }
        } else {
            out.push(body[i]);
            proof {
                assert(out@ + requote_from(body@, (i + 1) as nat) =~= (out@.drop_last() + (seq![
                    body@[i as int],
                ] + requote_from(body@, (i + 1) as nat))));
            }
            i = i + 1;
        }
    }
    proof {
        assert(requote_from(body@, i as nat) =~= Seq::<u8>::empty());
        assert(out@ =~= out@ + requote_from(body@, i as nat));
    }
    Some(out)
}

/// An opening bracket: `{` or `[`.
pub open spec fn is_open(b: u8) -> bool {
    b == 0x7b || b == 0x5b
}

/// A closing bracket: `}` or `]`.
pub open spec fn is_close(b: u8) -> bool {
    b == 0x7d || b == 0x5d
}

/// The span from the first opening bracket to the last closing bracket,
/// both included, when both exist and the second comes after the first.
pub fn json_span(body: &[u8]) -> (r: Option<(usize, usize)>)
    ensures
        match r {
            Some((s, e)) => s < e < body@.len() && is_open(body@[s as int]) && is_close(body@[e as int])
                && (forall|i: int| 0 <= i < s ==> !is_open(#[trigger] body@[i])) && (forall|i: int|
                e < i < body@.len() ==> !is_close(#[trigger] body@[i])),
            None => forall|s: int, e: int|
                0 <= s < e < body@.len() && is_open(#[trigger] body@[s]) && is_close(#[trigger] body@[e])
                    ==> (exists|i: int| 0 <= i < s && is_open(body@[i])) || (exists|i: int|
                    e < i < body@.len() && is_close(body@[i])),
        },
{
    let n = body.len();
    let mut s: usize = 0;
    while s < n && !(body[s] == 0x7b || body[s] == 0x5b)
        invariant
            n == body@.len(),
            s <= n,
            forall|i: int| 0 <= i < s ==> !is_open(#[trigger] body@[i]),
        decreases n - s,
    {
        s = s + 1;
    }
    if s == n {
        return None;
    }
    let mut e: usize = n;
    while e > 0 && !(body[e - 1] == 0x7d || body[e - 1] == 0x5d)
        invariant
            n == body@.len(),
            e <= n,
            forall|i: int| e <= i < n ==> !is_close(#[trigger] body@[i]),
        decreases e,
    {
        e = e - 1;
    }
    if e == 0 {
        return None;
    }
    let end = e - 1;
    if end <= s {
        return None;
    }
    Some((s, end))
}


/// The body without the padding at its two ends.
pub open spec fn trimmed(b: Seq<u8>) -> Seq<u8> {
    let (s, e) = choose|s: int, e: int| trimmed_bounds(b, s, e);
    b.subrange(s, e)
}

/// Trimming has one outcome: any bounds that leave out all the padding at
/// both ends cut out the same bytes.
pub proof fn lemma_trimmed_unique(b: Seq<u8>, s: int, e: int)
    requires
        trimmed_bounds(b, s, e),
    ensures
        b.subrange(s, e) == trimmed(b),
{
    let (s2, e2) = choose|s2: int, e2: int| trimmed_bounds(b, s2, e2);
    if s < e {
        if s2 < e2 {
            assert(!(s2 < s)) by {
                if s2 < s {
                    assert(is_padding(b[s2]));
                }
            }
            assert(!(s < s2)) by {
                if s < s2 {
                    assert(is_padding(b[s]));
                }
            }
            assert(!(e2 < e)) by {
                if e2 < e {
                    assert(is_padding(b[e - 1]));
                }
            }
            assert(!(e < e2)) by {
                if e < e2 {
                    assert(is_padding(b[e2 - 1]));
                }
            }
        } else {
            assert(is_padding(b[s])) by {
                if s < s2 {
                } else {
                    assert(s >= e2);
                }
            }
        }
    } else if s2 < e2 {
        assert(is_padding(b[s2])) by {
            if s2 < s {
            } else {
                assert(s2 >= e);
            }
        }
    } else {
        assert(b.subrange(s, e) =~= b.subrange(s2, e2));
    }
}

/// The byte strings a body is read from, in order, each with whether a
/// JSON string it holds is read again as JSON: the trimmed body, then it
/// without NUL bytes, then the repairs of that ([`repairs_of`]), then, when
/// it holds a bracketed span, the span and the repairs of the span.
pub open spec fn span_attempts(s: Seq<u8>, a: int, e: int) -> Seq<(Seq<u8>, bool)> {
    let sl = s.subrange(a, e + 1);
    seq![(sl, false)] + repairs_of(sl)
}

/// The repairs tried on `x`: its escaped quotes undone (after trimming),
/// then its quotes put back, each where it applies.
pub open spec fn repairs_of(x: Seq<u8>) -> Seq<(Seq<u8>, bool)> {
    (if starts_escaped(trimmed(x)) {
        seq![(unescape_from(trimmed(x), 0), false)]
    } else {
        Seq::empty()
    }) + (if !x.contains(0x22u8) && x.contains(0x5cu8) {
        seq![(requote_from(x, 0), false)]
    } else {
        Seq::empty()
    })
}

/// Where `json_span` finds a span: `a` is the first opening bracket and `e`
/// the last closing one, after it.
pub open spec fn span_at(b: Seq<u8>, a: int, e: int) -> bool {
    &&& 0 <= a < e < b.len()
    &&& is_open(b[a])
    &&& is_close(b[e])
    &&& forall|i: int| 0 <= i < a ==> !is_open(#[trigger] b[i])
    &&& forall|i: int| e < i < b.len() ==> !is_close(#[trigger] b[i])
}

/// A copy of `b`.
fn copy_bytes(b: &[u8]) -> (r: Vec<u8>)
    ensures
        r@ == b@,
{
    let mut out: Vec<u8> = Vec::new();
    let mut k: usize = 0;
    while k < b.len()
        invariant
            k <= b@.len(),
            out@ == b@.take(k as int),
        decreases b@.len() - k,
    {
        out.push(b[k]);
        proof {
            assert(out@ =~= b@.take(k + 1));
        }
        k = k + 1;
    }
    proof {
        assert(out@ =~= b@);
    }
    out
}

/// Appends the repairs of `x` to `out`.
fn push_repairs(out: &mut Vec<(Vec<u8>, bool)>, x: &[u8])
    ensures
        final(out)@.len() == old(out)@.len() + repairs_of(x@).len(),
        forall|i: int| 0 <= i < old(out)@.len() ==> #[trigger] final(out)@[i] == old(out)@[i],
        forall|i: int|
            0 <= i < repairs_of(x@).len() ==> (#[trigger] final(out)@[old(out)@.len() + i]).0@
                == repairs_of(x@)[i].0 && final(out)@[old(out)@.len() + i].1 == repairs_of(x@)[i].1,
{
    let t = trim_body(x);
    proof {
        let (s, e) = choose|s: int, e: int| trimmed_bounds(x@, s, e) && t@ == x@.subrange(s, e);
        lemma_trimmed_unique(x@, s, e);
    }
    match unescape_quotes(t) {
        Some(v) => {
            out.push((v, false));
        },
        None => {},
    }
    match requote_backslashes(x) {
        Some(v) => {
            out.push((v, false));
        },
        None => {},
    }
}

/// The byte strings a request body is read from, in the order they are
/// tried, each with whether a JSON string it parses to is read again as
/// JSON. `r[0]` is the trimmed body and `r[1]` it without NUL bytes (both
/// read twice over), followed by the repairs of `r[1]`; then, when `r[1]`
/// holds a bracketed span, the span and its repairs.
pub fn parse_attempts(body: &[u8]) -> (r: Vec<(Vec<u8>, bool)>)
    ensures
        r@.len() >= 2,
        r@[0].0@ == trimmed(body@) && r@[0].1,
        r@[1].0@ == trimmed(body@).filter(|b: u8| b != 0) && r@[1].1,
        ({
            let s = r@[1].0@;
            let tail = r@.skip(2).map_values(|p: (Vec<u8>, bool)| (p.0@, p.1));
            ||| (exists|a: int, e: int|
                span_at(s, a, e) && tail == repairs_of(s) + span_attempts(s, a, e))
            ||| ((forall|a: int, e: int| !span_at(s, a, e)) && tail == repairs_of(s))
        }),
{
    let t = trim_body(body);
    proof {
        let (s0, e0) = choose|s: int, e: int| trimmed_bounds(body@, s, e) && t@ == body@.subrange(s, e);
        lemma_trimmed_unique(body@, s0, e0);
    }
    let mut out: Vec<(Vec<u8>, bool)> = Vec::new();
    out.push((copy_bytes(t), true));
    let secondary = strip_nul(t);
    out.push((copy_bytes(secondary.as_slice()), true));
    assert(out@[1].0@ == secondary@);
    push_repairs(&mut out, secondary.as_slice());
    let ghost after_first = out@;
    match json_span(secondary.as_slice()) {
        Some((a, e)) => {
            let n: usize = secondary.len();
            let mut sl: Vec<u8> = Vec::new();
            let mut k: usize = a;
            while k <= e
                invariant
                    a <= k <= e + 1,
                    n == secondary@.len(),
                    e < n,
                    sl@ == secondary@.subrange(a as int, k as int),
                decreases e + 1 - k,
            {
                sl.push(secondary[k]);
                proof {
                    assert(sl@ =~= secondary@.subrange(a as int, k + 1));
                }
                k = k + 1;
            }
            let ghost before = out@;
            let c = copy_bytes(sl.as_slice());
            out.push((c, false));
            let ghost pushed = out@;
            push_repairs(&mut out, sl.as_slice());
            proof {
                let s = secondary@;
                let tail = out@.skip(2).map_values(|p: (Vec<u8>, bool)| (p.0@, p.1));
                assert(span_at(s, a as int, e as int));
                let r1 = repairs_of(s);
                let r2 = repairs_of(sl@);
                let expected = r1 + span_attempts(s, a as int, e as int);
                assert(sl@ =~= s.subrange(a as int, e + 1));
                assert(after_first.len() == 2 + r1.len());
                assert(before == after_first);
                assert(tail.len() == expected.len());
                assert forall|i: int| 0 <= i < tail.len() implies tail[i] == expected[i] by {
                    assert(tail[i] == (out@[2 + i].0@, out@[2 + i].1));
                    if i < r1.len() {
                        assert(out@[2 + i] == after_first[2 + i]);
                    } else if i == r1.len() {
                        assert(out@[2 + i] == pushed[before.len() as int]);
                        assert(pushed[before.len() as int] == (c, false));
                    } else {
                        let j = i - r1.len() - 1;
                        assert(2 + i == pushed.len() + j);
                        assert(out@[pushed.len() + j].0@ == r2[j].0);
                    }
                }
                assert(tail =~= expected);
            }
        },
        None => {
            proof {
                let s = secondary@;
                assert forall|a: int, e: int| !span_at(s, a, e) by {
                    if span_at(s, a, e) {
                        assert(is_open(s[a]) && is_close(s[e]));
                    }
                }
                let tail = out@.skip(2).map_values(|p: (Vec<u8>, bool)| (p.0@, p.1));
                assert forall|i: int| 0 <= i < tail.len() implies tail[i] == repairs_of(s)[i] by {
                    assert(tail[i] == (out@[2 + i].0@, out@[2 + i].1));
                }
                assert(tail =~= repairs_of(s));
            }
        },
    }
    out
}

/// What parsing one attempt as JSON came to, as far as the next step
/// depends on it.
#[derive(Debug, Clone, Copy, PartialEq, Eq)]
pub enum AttemptParse {
    /// The bytes are no JSON.
    Failed,
    /// The bytes are a JSON string.
    Text,
    /// The bytes are JSON of another kind.
    Other,
}

/// What is done with an attempt once it has been parsed.
#[derive(Debug, Clone, Copy, PartialEq, Eq)]
pub enum ParseStep {
    /// The parsed value is the request.
    Use,
    /// The string's contents are parsed as JSON, and that is the request:
    /// where they are no JSON, the body is a parse error.
    ReadTextAgain,
    /// The attempt is passed over for the next one.
    Next,
}

/// The step after an attempt of `parse_attempts` was parsed: one that is no
/// JSON gives way to the next; a JSON string from an attempt marked as read
/// twice over is read again; any other value is the request.
pub fn after_parse(nested: bool, parsed: AttemptParse) -> (r: ParseStep)
    ensures
        r == (match parsed {
            AttemptParse::Failed => ParseStep::Next,
            AttemptParse::Text => if nested {
                ParseStep::ReadTextAgain
            } else {
                ParseStep::Use
            },
            AttemptParse::Other => ParseStep::Use,
        }),
{
    match parsed {
        AttemptParse::Failed => ParseStep::Next,
        AttemptParse::Text => if nested {
            ParseStep::ReadTextAgain
        } else {
            ParseStep::Use
        },
        AttemptParse::Other => ParseStep::Use,
    }
}

} // verus!
