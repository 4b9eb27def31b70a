use vstd::prelude::*;

verus! {

/// The reserved address that marks a discontinuity in a trace.
pub const SENTINEL: u64 = 0xffff_ffff_ffff_ffff;

/// One observed control-flow transfer: (source address, destination address).
pub type Edge = (u64, u64);

/// Why a trace could not be decoded.
#[derive(Debug, Clone, Copy, PartialEq, Eq)]
pub enum TraceError {
    /// A record with two fields whose fields are not both hexadecimal `u64` values.
    BadNumber,
    /// A record ending in the sentinel was not followed by one starting with it.
    UnpairedSentinel,
}

/// What one line of a trace holds.
#[derive(Debug, Clone, Copy, PartialEq, Eq)]
pub enum Record {
    /// Not exactly two comma-separated fields: skipped.
    Malformed,
    /// Two fields, not both hexadecimal numbers.
    BadNumber,
    /// Two hexadecimal fields.
    Pair(u64, u64),
}

pub open spec fn is_space(b: u8) -> bool {
    b == 0x20 || (0x09 <= b && b <= 0x0d)
}

/// The line without its trailing white space.
pub open spec fn trim_end(s: Seq<u8>) -> Seq<u8>
    decreases s.len(),
{
    if s.len() > 0 && is_space(s.last()) {
        trim_end(s.drop_last())
    } else {
        s
    }
}

pub open spec fn hex_digit(b: u8) -> int {
    if 0x30 <= b && b <= 0x39 {
        b - 0x30
    } else if 0x61 <= b && b <= 0x66 {
        b - 0x61 + 10
    } else if 0x41 <= b && b <= 0x46 {
        b - 0x41 + 10
    } else {
        -1
    }
}

pub open spec fn all_hex(s: Seq<u8>) -> bool {
    forall|i: int| 0 <= i < s.len() ==> hex_digit(#[trigger] s[i]) >= 0
}

/// The value of a string of hexadecimal digits, most significant first.
pub open spec fn hex_value(s: Seq<u8>) -> int
    decreases s.len(),
{
    if s.len() == 0 {
        0
    } else {
        hex_value(s.drop_last()) * 16 + hex_digit(s.last())
    }
}

/// The digits of a number field, after an optional leading `+`.
pub open spec fn digits_of(s: Seq<u8>) -> Seq<u8> {
    if s.len() > 0 && s[0] == 0x2b {
        s.drop_first()
    } else {
        s
    }
}

/// A hexadecimal `u64` field: an optional `+`, then one or more digits of either case.
pub open spec fn hex_field(s: Seq<u8>) -> Option<u64> {
    let d = digits_of(s);
    if d.len() > 0 && all_hex(d) && hex_value(d) <= u64::MAX {
        Some(hex_value(d) as u64)
    } else {
        None
    }
}

pub open spec fn count_commas(s: Seq<u8>) -> nat
    decreases s.len(),
{
    if s.len() == 0 {
        0
    } else {
        count_commas(s.drop_last()) + if s.last() == 0x2c { 1nat } else { 0nat }
    }
}

/// The record that a line holds: after trimming trailing white space it must have
/// exactly one comma, and the fields on either side are read as hexadecimal.
pub open spec fn record_of(line: Seq<u8>) -> Record {
    let t = trim_end(line);
    if count_commas(t) != 1 {
        Record::Malformed
    } else {
        let k = choose|k: int| 0 <= k < t.len() && t[k] == 0x2c;
        match (hex_field(t.subrange(0, k)), hex_field(t.subrange(k + 1, t.len() as int))) {
            (Some(a), Some(b)) => Record::Pair(a, b),
            _ => Record::BadNumber,
        }
    }
}

fn is_space_byte(b: u8) -> (r: bool)
    ensures
        r == is_space(b),
{
    b == 0x20 || (0x09 <= b && b <= 0x0d)
}

fn hex_digit_of(b: u8) -> (r: i8)
    ensures
        r == hex_digit(b),
{
    if 0x30 <= b && b <= 0x39 {
        (b - 0x30) as i8
    } else if 0x61 <= b && b <= 0x66 {
        (b - 0x61 + 10) as i8
    } else if 0x41 <= b && b <= 0x46 {
        (b - 0x41 + 10) as i8
    } else {
        -1
    }
}

proof fn lemma_hex_value_nonneg(s: Seq<u8>)
    requires
        all_hex(s),
    ensures
        hex_value(s) >= 0,
    decreases s.len(),
{
    if s.len() > 0 {
        lemma_hex_value_nonneg(s.drop_last());
        assert(hex_digit(s[s.len() - 1]) >= 0);
    }
}

proof fn lemma_hex_value_grows(s: Seq<u8>, n: int)
    requires
        all_hex(s),
        0 <= n <= s.len(),
    ensures
        hex_value(s.subrange(0, n)) <= hex_value(s),
    decreases s.len() - n,
{
    if n < s.len() {
        lemma_hex_value_grows(s, n + 1);
        let p = s.subrange(0, n + 1);
        assert(p.drop_last() =~= s.subrange(0, n));
        assert(hex_digit(s[n]) >= 0);
        assert(p.last() == s[n]);
        assert(all_hex(s.subrange(0, n))) by {
            assert forall|j: int| 0 <= j < n implies hex_digit(#[trigger] s.subrange(0, n)[j]) >= 0 by {
                assert(s.subrange(0, n)[j] == s[j]);
            }
        }
        lemma_hex_value_nonneg(s.subrange(0, n));
    } else {
        assert(s.subrange(0, n) =~= s);
    }
}

/// Reads `s[lo..hi]` as a hexadecimal field.
fn parse_hex(s: &Vec<u8>, lo: usize, hi: usize) -> (r: Option<u64>)
    requires
        lo <= hi <= s@.len(),
    ensures
        r == hex_field(s@.subrange(lo as int, hi as int)),
{
    let ghost f = s@.subrange(lo as int, hi as int);
    let mut start = lo;
    if lo < hi && s[lo] == 0x2b {
        start = lo + 1;
    }
    let ghost d = s@.subrange(start as int, hi as int);
    assert(d =~= digits_of(f));
    if start == hi {
        return None;
    }
    let mut v: u64 = 0;
    let mut i = start;
    while i < hi
        invariant
            start <= i <= hi <= s@.len(),
            d == s@.subrange(start as int, hi as int),
            f == s@.subrange(lo as int, hi as int),
            d == digits_of(f),
            all_hex(s@.subrange(start as int, i as int)),
            v == hex_value(s@.subrange(start as int, i as int)),
        decreases hi - i,
    {
        let ghost p = s@.subrange(start as int, i as int);
        let ghost q = s@.subrange(start as int, i + 1);
        assert(q.drop_last() =~= p);
        let h = hex_digit_of(s[i]);
        if h < 0 {
            assert(d[i - start] == s@[i as int]);
            assert(hex_digit(d[i - start]) < 0);
            assert(!all_hex(d));
            return None;
        }
        if v > 0x0fff_ffff_ffff_ffff {
            proof {
                assert(q.last() == s@[i as int]);
                assert(all_hex(q)) by {
                    assert forall|j: int| 0 <= j < q.len() implies hex_digit(#[trigger] q[j]) >= 0 by {
                        if j < q.len() - 1 {
                            assert(q[j] == p[j]);
                        }
                    }
                }
                lemma_hex_value_nonneg(p);
                assert(hex_value(q) == v * 16 + hex_digit(s@[i as int]));
                assert(v * 16 > u64::MAX) by (nonlinear_arith)
                    requires v > 0x0fff_ffff_ffff_ffffu64;
                assert(hex_value(q) > u64::MAX);
                assert(d.subrange(0, i + 1 - start) =~= q);
                if all_hex(d) {
                    lemma_hex_value_grows(d, i + 1 - start);
                }
            }
            return None;
        }
        v = v * 16 + h as u64;
        i = i + 1;
    }
    assert(s@.subrange(start as int, i as int) =~= d);
    Some(v)
}

/// Reads one line of a trace.
pub fn parse_record(line: &Vec<u8>) -> (r: Record)
    ensures
        r == record_of(line@),
{
    let mut end = line.len();
    assert(line@.subrange(0, end as int) =~= line@);
    while end > 0 && is_space_byte(line[end - 1])
        invariant
            end <= line@.len(),
            trim_end(line@.subrange(0, end as int)) == trim_end(line@),
        decreases end,
    {
        assert(line@.subrange(0, end as int).drop_last() =~= line@.subrange(0, end - 1));
        end = end - 1;
    }
    let ghost t = line@.subrange(0, end as int);
    assert(trim_end(t) == t);
    let mut commas: usize = 0;
    let mut k: usize = 0;
    let mut i: usize = 0;
    while i < end
        invariant
            i <= end <= line@.len(),
            t == line@.subrange(0, end as int),
            commas == count_commas(t.subrange(0, i as int)),
            commas <= i,
            commas > 0 ==> k < i && t[k as int] == 0x2c,
            commas == 0 ==> forall|j: int| 0 <= j < i ==> t[j] != 0x2c,
            commas == 1 ==> forall|j: int| 0 <= j < i && t[j] == 0x2c ==> j == k,
        decreases end - i,
    {
        assert(t.subrange(0, i + 1).drop_last() =~= t.subrange(0, i as int));
        assert(t[i as int] == line@[i as int]);
        if line[i] == 0x2c {
            if commas == 0 {
                k = i;
            }
            commas = commas + 1;
        }
        i = i + 1;
    }
    assert(t.subrange(0, end as int) =~= t);
    if commas != 1 {
        return Record::Malformed;
    }
    assert(line@.subrange(0, k as int) =~= t.subrange(0, k as int));
    assert(line@.subrange(k + 1, end as int) =~= t.subrange(k + 1, t.len() as int));
    let a = parse_hex(line, 0, k);
    let b = parse_hex(line, k + 1, end);
    match (a, b) {
        (Some(x), Some(y)) => Record::Pair(x, y),
        _ => Record::BadNumber,
    }
}

/// What the decoder holds between records: the source of an edge whose destination
/// is still to come, after a record that ended in the sentinel.
pub open spec fn step(pending: Option<u64>, rec: Record) -> Result<(Option<u64>, Option<Edge>), TraceError> {
    match rec {
        Record::Malformed => Ok((pending, None)),
        Record::BadNumber => Err(TraceError::BadNumber),
        Record::Pair(s, d) => match pending {
            Some(p) => if s != SENTINEL {
                Err(TraceError::UnpairedSentinel)
            } else if d == SENTINEL {
                Ok((Some(p), None))
            } else {
                Ok((None, Some((p, d))))
            },
            None => if d == SENTINEL {
                Ok((Some(s), None))
            } else {
                Ok((None, Some((s, d))))
            },
        },
    }
}

/// The decoder's state after the first `n` lines: the pending source and the edges so far.
pub open spec fn run(lines: Seq<Seq<u8>>, n: nat) -> Result<(Option<u64>, Seq<Edge>), TraceError>
    decreases n,
{
    if n == 0 {
        Ok((None, Seq::empty()))
    } else {
        match run(lines, (n - 1) as nat) {
            Err(e) => Err(e),
            Ok((p, es)) => match step(p, record_of(lines[n - 1])) {
                Err(e) => Err(e),
                Ok((q, Some(e))) => Ok((q, es.push(e))),
                Ok((q, None)) => Ok((q, es)),
            },
        }
    }
}

/// The edges that a whole trace decodes to. A sentinel still pending at the end
/// closes with the sentinel as its destination.
pub open spec fn decoded(lines: Seq<Seq<u8>>) -> Result<Seq<Edge>, TraceError> {
    match run(lines, lines.len()) {
        Err(e) => Err(e),
        Ok((Some(p), es)) => Ok(es.push((p, SENTINEL))),
        Ok((None, es)) => Ok(es),
    }
}

/// A decoder fed one line at a time.
pub struct TraceDecoder {
    pub pending: Option<u64>,
}

impl TraceDecoder {
    pub fn new() -> (r: TraceDecoder)
        ensures
            r.pending is None,
    {
        TraceDecoder { pending: None }
    }

    /// Takes the next line; returns the edge it completes, if any.
    pub fn feed(&mut self, line: &Vec<u8>) -> (r: Result<Option<Edge>, TraceError>)
        ensures
            match step(old(self).pending, record_of(line@)) {
                Ok((q, e)) => r == Ok::<Option<Edge>, TraceError>(e) && final(self).pending == q,
                Err(x) => r == Err::<Option<Edge>, TraceError>(x),
            },
    {
        match parse_record(line) {
            Record::Malformed => Ok(None),
            Record::BadNumber => Err(TraceError::BadNumber),
            Record::Pair(s, d) => match self.pending {
                Some(p) => {
                    if s != SENTINEL {
                        Err(TraceError::UnpairedSentinel)
                    } else if d == SENTINEL {
                        Ok(None)
                    } else {
                        self.pending = None;
                        Ok(Some((p, d)))
                    }
                },
                None => {
                    if d == SENTINEL {
                        self.pending = Some(s);
                        Ok(None)
                    } else {
                        Ok(Some((s, d)))
                    }
                },
            },
        }
    }

    /// Ends the trace: a pending source closes with the sentinel as destination.
    pub fn finish(&self) -> (r: Option<Edge>)
        ensures
            r == match self.pending {
                Some(p) => Some((p, SENTINEL)),
                None => None::<Edge>,
            },
    {
        match self.pending {
            Some(p) => Some((p, SENTINEL)),
            None => None,
        }
    }
}

/// Decodes a whole trace, given as its lines.
pub fn decode_lines(lines: &Vec<Vec<u8>>) -> (r: Result<Vec<Edge>, TraceError>)
    ensures
        match decoded(lines@.map_values(|l: Vec<u8>| l@)) {
            Ok(es) => r matches Ok(v) && v@ == es,
            Err(e) => r == Err::<Vec<Edge>, TraceError>(e),
        },
{
    let ghost ls = lines@.map_values(|l: Vec<u8>| l@);
    let mut dec = TraceDecoder::new();
    let mut out: Vec<Edge> = Vec::new();
    let mut i: usize = 0;
    while i < lines.len()
        invariant
            i <= lines@.len(),
            ls == lines@.map_values(|l: Vec<u8>| l@),
            run(ls, i as nat) == Ok::<(Option<u64>, Seq<Edge>), TraceError>((dec.pending, out@)),
        decreases lines.len() - i,
    {
        assert(ls[i as int] == lines@[i as int]@);
        match dec.feed(&lines[i]) {
            Err(e) => {
                assert(run(ls, (i + 1) as nat) == Err::<(Option<u64>, Seq<Edge>), TraceError>(e));
                proof { lemma_run_err_sticks(ls, (i + 1) as nat); }
                return Err(e);
            },
            Ok(Some(e)) => {
                out.push(e);
            },
            Ok(None) => {},
        }
        i = i + 1;
    }
    if let Some(e) = dec.finish() {
        out.push(e);
    }
    Ok(out)
}

/// A well-formed record whose destination is not the sentinel decodes to exactly the
/// one edge of its two values.
pub proof fn lemma_decode_plain_record(line: Seq<u8>, src: u64, dst: u64)
    requires
        record_of(line) == Record::Pair(src, dst),
        dst != SENTINEL,
    ensures
        decoded(seq![line]) == Ok::<Seq<Edge>, TraceError>(seq![(src, dst)]),
{
    assert(run(seq![line], 0) == Ok::<(Option<u64>, Seq<Edge>), TraceError>((None, Seq::empty())));
    assert(seq![line][0] == line);
    assert(Seq::<Edge>::empty().push((src, dst)) =~= seq![(src, dst)]);
}

/// A record ending in the sentinel, followed by one starting with it, decodes to the one
/// edge from the first record's source to the second record's destination.
pub proof fn lemma_decode_sentinel_pair(first: Seq<u8>, second: Seq<u8>, src: u64, dst: u64)
    requires
        record_of(first) == Record::Pair(src, SENTINEL),
        record_of(second) == Record::Pair(SENTINEL, dst),
        dst != SENTINEL,
    ensures
        decoded(seq![first, second]) == Ok::<Seq<Edge>, TraceError>(seq![(src, dst)]),
{
    let ls = seq![first, second];
    assert(ls[0] == first && ls[1] == second);
    assert(run(ls, 0) == Ok::<(Option<u64>, Seq<Edge>), TraceError>((None, Seq::empty())));
    assert(run(ls, 1) == Ok::<(Option<u64>, Seq<Edge>), TraceError>((Some(src), Seq::empty())));
    assert(Seq::<Edge>::empty().push((src, dst)) =~= seq![(src, dst)]);
}

/// A line without exactly two fields yields no edge, and decoding goes on past it.
pub proof fn lemma_decode_skips_malformed(line: Seq<u8>, rest: Seq<Seq<u8>>)
    requires
        record_of(line) == Record::Malformed,
    ensures
        decoded(seq![line]) == Ok::<Seq<Edge>, TraceError>(Seq::empty()),
        decoded(seq![line] + rest) == decoded(rest),
{
    assert(seq![line][0] == line);
    assert(run(seq![line], 0) == Ok::<(Option<u64>, Seq<Edge>), TraceError>((None, Seq::empty())));
    assert(run(seq![line], 1) == Ok::<(Option<u64>, Seq<Edge>), TraceError>((None, Seq::empty())));
    assert(seq![line] + rest =~= seq![line].add(rest));
    lemma_run_skip_first(line, rest, rest.len());
}

proof fn lemma_run_skip_first(line: Seq<u8>, rest: Seq<Seq<u8>>, n: nat)
    requires
        record_of(line) == Record::Malformed,
        n <= rest.len(),
    ensures
        run(seq![line] + rest, n + 1) == run(rest, n),
    decreases n,
{
    let ls = seq![line] + rest;
    assert(run(ls, 0) == Ok::<(Option<u64>, Seq<Edge>), TraceError>((None, Seq::empty())));
    if n == 0 {
        assert(ls[0] == line);
        assert(run(rest, 0) == Ok::<(Option<u64>, Seq<Edge>), TraceError>((None, Seq::empty())));
    } else {
        lemma_run_skip_first(line, rest, (n - 1) as nat);
        assert(ls[n as int] == rest[n - 1]);
        assert(run(ls, n + 1) == run(rest, n));
    }
}

proof fn lemma_run_err_sticks(lines: Seq<Seq<u8>>, n: nat)
    requires
        n <= lines.len(),
        run(lines, n) is Err,
    ensures
        run(lines, lines.len()) == run(lines, n),
    decreases lines.len() - n,
{
    if n < lines.len() {
        lemma_run_err_sticks(lines, n + 1);
    }
}

} // verus!
