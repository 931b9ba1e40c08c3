//! Compact probabilistic sketches for approximate frequency estimation over
//! item streams: a Count-Min sketch with geometric-skip sampling, a
//! Space-Saving top-k counter, a counting cuckoo filter and its sampled
//! wrapper, a sampled exact counter map, and a windowed composite sketch.
use vstd::prelude::*;

use vstd::string::StringSliceAdditionalSpecFns;

pub mod cuckoo;
pub mod entries;
pub mod facs;
pub mod hashing;
pub mod nitro_cms;
pub mod nitro_cuckoo;
pub mod nitro_hash;
pub mod sampling;
pub mod space_saving;
pub mod space_saving_by_hash;

verus! {

/// A flow identifier: a pair of 32-bit network addresses (source, destination).
/// Sketches treat it as an opaque fixed-size key.
#[derive(Clone, Copy, PartialEq, Eq, Structural, Debug, Hash)]
pub struct FlowId {
    pub src: u32,
    pub dst: u32,
}

impl FlowId {
    /// The eight address octets of this flow, source first, each address in
    /// big-endian (network) order.
    pub open spec fn spec_bytes(self) -> Seq<u8> {
        seq![
            (self.src >> 24) as u8,
            ((self.src >> 16) & 0xff) as u8,
            ((self.src >> 8) & 0xff) as u8,
            (self.src & 0xff) as u8,
            (self.dst >> 24) as u8,
            ((self.dst >> 16) & 0xff) as u8,
            ((self.dst >> 8) & 0xff) as u8,
            (self.dst & 0xff) as u8,
        ]
    }

    /// Serialize the flow as its eight address octets; sketches hash these.
    pub fn to_bytes(self) -> (r: Vec<u8>)
        ensures
            r@ == self.spec_bytes(),
    {
        let mut v: Vec<u8> = Vec::new();
        v.push((self.src >> 24) as u8);
        v.push(((self.src >> 16) & 0xff) as u8);
        v.push(((self.src >> 8) & 0xff) as u8);
        v.push((self.src & 0xff) as u8);
        v.push((self.dst >> 24) as u8);
        v.push(((self.dst >> 16) & 0xff) as u8);
        v.push(((self.dst >> 8) & 0xff) as u8);
        v.push((self.dst & 0xff) as u8);
        proof {
            assert(v@ =~= self.spec_bytes());
        }
        v
    }
}

/// Whether two byte strings hold the same bytes.
pub fn bytes_eq(a: &[u8], b: &[u8]) -> (r: bool)
    ensures
        r == (a@ == b@),
{
    if a.len() != b.len() {
        proof {
            assert(a@.len() != b@.len());
        }
        return false;
    }
    let n = a.len();
    let mut i: usize = 0;
    while i < n
        invariant
            i <= n,
            n == a@.len() == b@.len(),
            forall|j: int| 0 <= j < i ==> a@[j] == b@[j],
        decreases n - i,
    {
        if a[i] != b[i] {
            return false;
        }
        i = i + 1;
    }
    proof {
        assert(a@ =~= b@);
    }
    true
}

/// The sketch kinds a benchmark driver can select.
#[derive(Clone, Copy, PartialEq, Eq, Structural, Debug)]
pub enum DsType {
    HASH,
    CMS,
    NitroCMS,
    FPDASH,
    SpaceSaving,
    NitroHash,
    Cuckoo,
    NitroCuckoo,
    FACS,
}

/// The timing regimes of a benchmark run: reads only, writes only, or both.
#[derive(Clone, Copy, PartialEq, Eq, Structural, Debug)]
pub enum TimeType {
    READTIME,
    WRITETIME,
    RWTIME,
}

/// ASCII whitespace, the delimiters between a line's octet tokens.
pub open spec fn is_ws(b: u8) -> bool {
    b == 32 || (9 <= b <= 13)
}

/// The first non-whitespace position at or after `i`.
pub open spec fn skip_ws(s: Seq<u8>, i: int) -> int
    decreases s.len() - i,
{
    if i >= s.len() {
        s.len() as int
    } else if is_ws(s[i]) {
        skip_ws(s, i + 1)
    } else {
        i
    }
}

/// The first whitespace position at or after `i` (the end of a token that
/// starts there).
pub open spec fn end_tok(s: Seq<u8>, i: int) -> int
    decreases s.len() - i,
{
    if i >= s.len() {
        s.len() as int
    } else if is_ws(s[i]) {
        i
    } else {
        end_tok(s, i + 1)
    }
}

/// Where the `k`-th whitespace-delimited token starts (the line's length
/// when there is no such token).
pub open spec fn tok_start(s: Seq<u8>, k: nat) -> int
    decreases k,
{
    if k == 0 {
        skip_ws(s, 0)
    } else {
        skip_ws(s, end_tok(s, tok_start(s, (k - 1) as nat)))
    }
}

/// An ASCII decimal digit.
pub open spec fn is_digit(b: u8) -> bool {
    48 <= b <= 57
}

/// The number the digit bytes spell.
pub open spec fn digits_val(t: Seq<u8>) -> int
    decreases t.len(),
{
    if t.len() == 0 {
        0
    } else {
        digits_val(t.drop_last()) * 10 + (t.last() - 48)
    }
}

/// Whether every byte is a decimal digit.
pub open spec fn all_digits(t: Seq<u8>) -> bool {
    forall|j: int| 0 <= j < t.len() ==> is_digit(#[trigger] t[j])
}

/// How a token parses as an octet: an optional leading plus sign, then
/// digits spelling a value up to 255; anything else (an empty or
/// malformed token, or a too-large value) counts as zero.
pub open spec fn parse_u8_tok(t: Seq<u8>) -> u8 {
    let d = if t.len() >= 1 && t[0] == 43 {
        t.subrange(1, t.len() as int)
    } else {
        t
    };
    if d.len() >= 1 && all_digits(d) && digits_val(d) <= 255 {
        digits_val(d) as u8
    } else {
        0
    }
}

/// The `k`-th octet of a line: its `k`-th token parsed, or zero when the
/// line has fewer tokens.
pub open spec fn spec_octet(s: Seq<u8>, k: nat) -> u8 {
    if tok_start(s, k) < s.len() {
        parse_u8_tok(s.subrange(tok_start(s, k), end_tok(s, tok_start(s, k))))
    } else {
        0
    }
}

/// The flow a line denotes: its first four octets as the source address,
/// the next four as the destination.
pub open spec fn spec_id_from_line(s: Seq<u8>) -> FlowId {
    FlowId {
        src: ((spec_octet(s, 0) as u32) << 24) | ((spec_octet(s, 1) as u32) << 16) | ((spec_octet(
            s,
            2,
        ) as u32) << 8) | (spec_octet(s, 3) as u32),
        dst: ((spec_octet(s, 4) as u32) << 24) | ((spec_octet(s, 5) as u32) << 16) | ((spec_octet(
            s,
            6,
        ) as u32) << 8) | (spec_octet(s, 7) as u32),
    }
}

/// A digit string's value only grows as more digits follow, and is never
/// negative.
pub proof fn lemma_digits_prefix_le(t: Seq<u8>, m: int)
    requires
        0 <= m <= t.len(),
        all_digits(t),
    ensures
        0 <= digits_val(t.take(m)),
        digits_val(t.take(m)) <= digits_val(t),
    decreases t.len() - m,
{
    if m == t.len() {
        assert(t.take(m) =~= t);
        lemma_digits_nonneg(t);
    } else {
        lemma_digits_prefix_le(t, m + 1);
        assert(t.take(m + 1).drop_last() =~= t.take(m));
        assert(t.take(m + 1).last() == t[m]);
        lemma_digits_nonneg(t.take(m));
    }
}

/// A digit string's value is never negative.
pub proof fn lemma_digits_nonneg(t: Seq<u8>)
    requires
        all_digits(t),
    ensures
        0 <= digits_val(t),
    decreases t.len(),
{
    if t.len() > 0 {
        assert(all_digits(t.drop_last())) by {
            assert(forall|j: int| 0 <= j < t.len() - 1 ==> is_digit(#[trigger] t[j]));
        }
        lemma_digits_nonneg(t.drop_last());
    }
}

/// Whether a byte is ASCII whitespace.
pub fn is_ws_exec(b: u8) -> (r: bool)
    ensures
        r == is_ws(b),
{
    b == 32 || (9 <= b && b <= 13)
}

/// The next token at or after `from`: where it starts (after any
/// whitespace) and where it ends.
#[verifier::loop_isolation(false)]
pub fn next_token(s: &[u8], from: usize) -> (r: (usize, usize))
    requires
        from <= s@.len(),
    ensures
        r.0 == skip_ws(s@, from as int),
        r.1 == end_tok(s@, r.0 as int),
        from <= r.0 <= r.1 <= s@.len(),
{
    let n = s.len();
    let mut p = from;
    while p < n && is_ws_exec(s[p])
        invariant
            from <= p <= n,
            skip_ws(s@, from as int) == skip_ws(s@, p as int),
        decreases n - p,
    {
        p = p + 1;
    }
    let start = p;
    let mut q = p;
    while q < n && !is_ws_exec(s[q])
        invariant
            start <= q <= n,
            end_tok(s@, start as int) == end_tok(s@, q as int),
        decreases n - q,
    {
        q = q + 1;
    }
    (start, q)
}

/// Parse one token as an octet: an optional plus sign, then digits up to
/// 255; a malformed or too-large token yields zero.
#[verifier::loop_isolation(false)]
pub fn parse_octet(tok: &[u8]) -> (r: u8)
    ensures
        r == parse_u8_tok(tok@),
{
    let n = tok.len();
    let start: usize = if n >= 1 && tok[0] == 43 {
        1
    } else {
        0
    };
    let ghost d = if tok@.len() >= 1 && tok@[0] == 43 {
        tok@.subrange(1, tok@.len() as int)
    } else {
        tok@
    };
    proof {
        assert(d =~= tok@.subrange(start as int, n as int));
    }
    if n == start {
        return 0;
    }
    let mut acc: u32 = 0;
    let mut i = start;
    while i < n
        invariant
            start <= i <= n,
            n == tok@.len(),
            d == tok@.subrange(start as int, n as int),
            acc <= 255,
            acc == digits_val(d.take(i - start)),
            forall|j: int| 0 <= j < i - start ==> is_digit(#[trigger] d[j]),
        decreases n - i,
    {
        let b = tok[i];
        if b < 48 || b > 57 {
            proof {
                assert(d[i - start] == tok@[i as int]);
                assert(!all_digits(d));
            }
            return 0;
        }
        let acc2 = acc * 10 + ((b - 48) as u32);
        proof {
            assert(d.take(i + 1 - start).drop_last() =~= d.take(i - start));
            assert(d.take(i + 1 - start).last() == tok@[i as int]);
        }
        if acc2 > 255 {
            proof {
                if all_digits(d) {
                    lemma_digits_prefix_le(d, i + 1 - start);
                }
            }
            return 0;
        }
        acc = acc2;
        i = i + 1;
    }
    proof {
        assert(d.take(n - start) =~= d);
        assert(all_digits(d));
    }
    acc as u8
}

/// The flow a line denotes: eight whitespace-separated decimal octets,
/// source address first; missing or malformed octets read as zero.
pub fn id_from_line(line: &str) -> (r: FlowId)
    ensures
        r == spec_id_from_line(line.spec_bytes()),
{
    id_from_bytes(line.as_bytes())
}

/// `id_from_line` over the line's raw bytes.
pub fn id_from_bytes(s: &[u8]) -> (r: FlowId)
    ensures
        r == spec_id_from_line(s@),
{
    let mut octets: [u8; 8] = [0, 0, 0, 0, 0, 0, 0, 0];
    let mut pos: usize = 0;
    let n = s.len();
    let mut k: usize = 0;
    while k < 8
        invariant
            k <= 8,
            n == s@.len(),
            pos <= n,
            k == 0 ==> pos == 0,
            k >= 1 ==> pos == end_tok(s@, tok_start(s@, (k - 1) as nat)),
            forall|t: int| 0 <= t < k ==> (#[trigger] octets@[t]) == spec_octet(s@, t as nat),
            forall|t: int| k <= t < 8 ==> (#[trigger] octets@[t]) == 0,
        decreases 8 - k,
    {
        let (ts, te) = next_token(s, pos);
        proof {
            if k == 0 {
                assert(tok_start(s@, 0) == skip_ws(s@, 0));
            } else {
                assert(tok_start(s@, k as nat) == skip_ws(
                    s@,
                    end_tok(s@, tok_start(s@, (k - 1) as nat)),
                ));
            }
            assert(ts == tok_start(s@, k as nat));
        }
        let o = if ts < n {
            let tokslice = vstd::slice::slice_subrange(s, ts, te);
            parse_octet(tokslice)
        } else {
            0
        };
        octets[k] = o;
        pos = te;
        proof {
            assert(octets@[k as int] == spec_octet(s@, k as nat));
        }
        k = k + 1;
    }
    let src = ((octets[0] as u32) << 24) | ((octets[1] as u32) << 16) | ((octets[2] as u32) << 8)
        | (octets[3] as u32);
    let dst = ((octets[4] as u32) << 24) | ((octets[5] as u32) << 16) | ((octets[6] as u32) << 8)
        | (octets[7] as u32);
    FlowId { src, dst }
}

/// The first newline position at or after `i`.
pub open spec fn find_nl(s: Seq<u8>, i: int) -> int
    decreases s.len() - i,
{
    if i >= s.len() {
        s.len() as int
    } else if s[i] == 10 {
        i
    } else {
        find_nl(s, i + 1)
    }
}

/// A newline search never moves backward and never passes the end.
pub proof fn lemma_find_nl_bounds(s: Seq<u8>, i: int)
    requires
        i <= s.len(),
    ensures
        i <= find_nl(s, i) <= s.len(),
    decreases s.len() - i,
{
    if i < s.len() && s[i] != 10 {
        lemma_find_nl_bounds(s, i + 1);
    }
}

/// The flows the lines from position `i` onward denote, one per line.
pub open spec fn spec_ids_from(s: Seq<u8>, i: int) -> Seq<FlowId>
    decreases s.len() - i,
    via spec_ids_from_decreases
{
    if i >= s.len() {
        Seq::empty()
    } else {
        let e = find_nl(s, i);
        seq![spec_id_from_line(s.subrange(i, e))] + (if e < s.len() {
            spec_ids_from(s, e + 1)
        } else {
            Seq::empty()
        })
    }
}

#[via_fn]
proof fn spec_ids_from_decreases(s: Seq<u8>, i: int) {
    if i < s.len() {
        lemma_find_nl_bounds(s, i);
    }
}

/// Split the input into newline-separated lines and parse each into a
/// flow.  Every line yields a flow; missing or malformed octets read as
/// zero.
#[verifier::loop_isolation(false)]
pub fn preprocess_contents(contents: &str) -> (r: Vec<FlowId>)
    ensures
        r@ == spec_ids_from(contents.spec_bytes(), 0),
{
    let s = contents.as_bytes();
    let n = s.len();
    let mut result: Vec<FlowId> = Vec::new();
    let mut pos: usize = 0;
    let mut done: bool = pos >= n;
    while !done
        invariant
            pos <= n,
            n == s@.len(),
            done ==> spec_ids_from(s@, 0) == result@,
            !done ==> pos < n,
            !done ==> spec_ids_from(s@, 0) == result@ + spec_ids_from(s@, pos as int),
        decreases n - pos + (if done {
            0int
        } else {
            1int
        }),
    {
        let mut e = pos;
        while e < n && s[e] != 10
            invariant
                pos <= e <= n,
                find_nl(s@, pos as int) == find_nl(s@, e as int),
            decreases n - e,
        {
            e = e + 1;
        }
        proof {
            assert(find_nl(s@, pos as int) == e as int);
        }
        let line = vstd::slice::slice_subrange(s, pos, e);
        let id = id_from_bytes(line);
        let ghost old_res = result@;
        let ghost posg = pos as int;
        result.push(id);
        proof {
            assert(result@ =~= old_res + seq![spec_id_from_line(s@.subrange(posg, e as int))]);
        }
        if e < n {
            pos = e + 1;
            proof {
                assert(spec_ids_from(s@, posg) == seq![
                    spec_id_from_line(s@.subrange(posg, e as int)),
                ] + spec_ids_from(s@, e + 1));
                assert(spec_ids_from(s@, 0) =~= result@ + spec_ids_from(s@, pos as int));
            }
            if pos >= n {
                done = true;
                proof {
                    assert(spec_ids_from(s@, pos as int) =~= Seq::<FlowId>::empty());
                    assert(spec_ids_from(s@, 0) =~= result@);
                }
            }
        } else {
            done = true;
            proof {
                assert(spec_ids_from(s@, posg) =~= seq![
                    spec_id_from_line(s@.subrange(posg, e as int)),
                ]);
                assert(spec_ids_from(s@, 0) =~= result@);
            }
        }
    }
    result
}

} // verus!
