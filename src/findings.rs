use vstd::prelude::*;
use crate::path::{chars_of, string_of, normalize, normalize_chars, normalized};

verus! {

/// What a regular expression finds in a text: for each successive match, the text of
/// its first and of its second capture group (empty where a group took no part);
/// `None` where the pattern is not a valid expression.
pub uninterp spec fn regex_captures(pattern: Seq<char>, text: Seq<char>) -> Option<Seq<(Seq<char>, Seq<char>)>>;

pub open spec fn pair_views(v: Seq<(String, String)>) -> Seq<(Seq<char>, Seq<char>)> {
    v.map_values(|p: (String, String)| (p.0@, p.1@))
}

/// Relies on regex's `Regex::new` and `Regex::captures_iter`: the successive matches of
/// the pattern in the text, with the text of capture groups one and two.
#[verifier::external_body]
fn captures(pattern: &str, text: &str) -> (r: Option<Vec<(String, String)>>)
    ensures
        match regex_captures(pattern@, text@) {
            Some(cs) => r matches Some(v) && pair_views(v@) == cs,
            None => r is None,
        },
{
    let re = regex::Regex::new(pattern).ok()?;
    let group = |c: &regex::Captures, i: usize| c.get(i).map_or(String::new(), |m| m.as_str().to_string());
    Some(re.captures_iter(text).map(|c| (group(&c, 1), group(&c, 2))).collect())
}

/// A source location: a normalized path and a line number.
#[derive(Debug, Clone, PartialOrd, Ord, Hash)]
pub struct LineInfo {
    pub path: String,
    pub line: u32,
}

impl View for LineInfo {
    type V = (Seq<char>, u32);

    open spec fn view(&self) -> (Seq<char>, u32) {
        (self.path@, self.line)
    }
}

impl PartialEq for LineInfo {
    fn eq(&self, o: &LineInfo) -> (r: bool) {
        self.path == o.path && self.line == o.line
    }
}

impl Eq for LineInfo {}

impl vstd::std_specs::cmp::PartialEqSpecImpl for LineInfo {
    open spec fn obeys_eq_spec() -> bool {
        true
    }

    open spec fn eq_spec(&self, o: &LineInfo) -> bool {
        self@ == o@
    }
}

pub open spec fn is_digit(c: char) -> bool {
    '0' <= c && c <= '9'
}

/// The value of a string of decimal digits, most significant first.
pub open spec fn dec_value(s: Seq<char>) -> int
    decreases s.len(),
{
    if s.len() == 0 {
        0
    } else {
        dec_value(s.drop_last()) * 10 + (s.last() as int - '0' as int)
    }
}

pub open spec fn unsigned_digits(s: Seq<char>) -> Seq<char> {
    if s.len() > 0 && s[0] == '+' { s.drop_first() } else { s }
}

pub open spec fn all_digits(d: Seq<char>) -> bool {
    forall|i: int| 0 <= i < d.len() ==> is_digit(#[trigger] d[i])
}

/// A `u32` line number: an optional `+`, then one or more decimal digits.
pub open spec fn line_number(s: Seq<char>) -> Option<u32> {
    let d = unsigned_digits(s);
    if d.len() > 0 && all_digits(d) && dec_value(d) <= u32::MAX {
        Some(dec_value(d) as u32)
    } else {
        None
    }
}

/// The index of the first `:` at or after `from`, or the length where there is none.
pub open spec fn colon_from(s: Seq<char>, from: int) -> int
    decreases s.len() - from,
{
    if from >= s.len() {
        s.len() as int
    } else if s[from] == ':' {
        from
    } else {
        colon_from(s, from + 1)
    }
}

/// The location that `path:line` text names: the path is what precedes the first `:`,
/// the line number what lies between it and the next `:` (or the end).
pub open spec fn location_of(s: Seq<char>) -> Option<(Seq<char>, u32)> {
    let k = colon_from(s, 0);
    if k >= s.len() {
        None
    } else {
        match line_number(s.subrange(k + 1, colon_from(s, k + 1))) {
            Some(n) => Some((normalized(s.subrange(0, k)), n)),
            None => None,
        }
    }
}

fn find_colon(s: &Vec<char>, from: usize) -> (r: usize)
    requires
        from <= s@.len(),
    ensures
        r == colon_from(s@, from as int),
{
    let mut i = from;
    while i < s.len() && s[i] != ':'
        invariant
            from <= i <= s@.len(),
            colon_from(s@, from as int) == colon_from(s@, i as int),
        decreases s.len() - i,
    {
        i = i + 1;
    }
    i
}

proof fn lemma_dec_prefix(s: Seq<char>, n: int)
    requires
        forall|i: int| 0 <= i < s.len() ==> is_digit(#[trigger] s[i]),
        0 <= n <= s.len(),
    ensures
        0 <= dec_value(s.subrange(0, n)) <= dec_value(s),
    decreases s.len() - n,
{
    if n < s.len() {
        lemma_dec_prefix(s, n + 1);
        assert(s.subrange(0, n + 1).drop_last() =~= s.subrange(0, n));
        assert(s.subrange(0, n + 1).last() == s[n]);
        lemma_dec_nonneg(s.subrange(0, n));
    } else {
        assert(s.subrange(0, n) =~= s);
        lemma_dec_nonneg(s);
    }
}

proof fn lemma_dec_nonneg(s: Seq<char>)
    requires
        forall|i: int| 0 <= i < s.len() ==> is_digit(#[trigger] s[i]),
    ensures
        dec_value(s) >= 0,
    decreases s.len(),
{
    if s.len() > 0 {
        assert(is_digit(s[s.len() - 1]));
        lemma_dec_nonneg(s.drop_last());
    }
}

fn parse_line_number(s: &Vec<char>, lo: usize, hi: usize) -> (r: Option<u32>)
    requires
        lo <= hi <= s@.len(),
    ensures
        r == line_number(s@.subrange(lo as int, hi as int)),
{
    let ghost f = s@.subrange(lo as int, hi as int);
    let mut start = lo;
    if lo < hi && s[lo] == '+' {
        start = lo + 1;
    }
    let ghost d = s@.subrange(start as int, hi as int);
    assert(d =~= unsigned_digits(f));
    if start == hi {
        return None;
    }
    let mut v: u32 = 0;
    let mut i = start;
    while i < hi
        invariant
            start <= i <= hi <= s@.len(),
            d == s@.subrange(start as int, hi as int),
            f == s@.subrange(lo as int, hi as int),
            d == unsigned_digits(f),
            forall|j: int| start <= j < i ==> is_digit(#[trigger] s@[j]),
            v == dec_value(s@.subrange(start as int, i as int)),
        decreases hi - i,
    {
        let ghost p = s@.subrange(start as int, i as int);
        let ghost q = s@.subrange(start as int, i + 1);
        assert(q.drop_last() =~= p);
        assert(q.last() == s@[i as int]);
        let c = s[i];
        if !('0' <= c && c <= '9') {
            assert(d[i - start] == c);
            assert(!is_digit(d[i - start]));
            assert(!all_digits(d));
            return None;
        }
        let digit = (c as u32) - ('0' as u32);
        if v > 429496729 || (v == 429496729 && digit > 5) {
            proof {
                assert forall|j: int| 0 <= j < q.len() implies is_digit(#[trigger] q[j]) by {
                    assert(q[j] == s@[start + j]);
                }
                assert(dec_value(q) == v * 10 + digit);
                assert(dec_value(q) > u32::MAX) by (nonlinear_arith)
                    requires dec_value(q) == v * 10 + digit, v > 429496729 || (v == 429496729 && digit > 5);
                assert(d.subrange(0, i + 1 - start) =~= q);
                if all_digits(d) {
                    lemma_dec_prefix(d, i + 1 - start);
                    assert(dec_value(d) > u32::MAX);
                }
                assert(line_number(f) is None);
            }
            return None;
        }
        v = v * 10 + digit;
        i = i + 1;
    }
    assert(s@.subrange(start as int, i as int) =~= d);
    assert forall|j: int| 0 <= j < d.len() implies is_digit(#[trigger] d[j]) by {
        assert(d[j] == s@[start + j]);
    }
    Some(v)
}

impl LineInfo {
    /// The location of `line` in `path`, with the path normalized.
    pub fn new(path: &str, line: u32) -> (r: LineInfo)
        ensures
            r@ == (normalized(path@), line),
    {
        LineInfo { path: normalize(path), line }
    }

    /// Reads `path:line` text; `None` where there is no `:` or no valid line number.
    pub fn from_location(s: &str) -> (r: Option<LineInfo>)
        ensures
            match location_of(s@) {
                Some(l) => r matches Some(x) && x@ == l,
                None => r is None,
            },
    {
        let cs = chars_of(s);
        let k = find_colon(&cs, 0);
        if k >= cs.len() {
            return None;
        }
        let e = find_colon(&cs, k + 1);
        proof { lemma_colon_bounds(cs@, k + 1); }
        match parse_line_number(&cs, k + 1, e) {
            Some(n) => {
                let path = prefix(&cs, k);
                let norm = normalize_chars(&path);
                Some(LineInfo { path: string_of(&norm), line: n })
            },
            None => None,
        }
    }

    /// Whether two locations are the same.
    pub fn same(&self, o: &LineInfo) -> (r: bool)
        ensures
            r == (self@ == o@),
    {
        self.path == o.path && self.line == o.line
    }
}

fn prefix(s: &Vec<char>, n: usize) -> (r: Vec<char>)
    requires
        n <= s@.len(),
    ensures
        r@ == s@.subrange(0, n as int),
{
    let mut r: Vec<char> = Vec::new();
    let mut i: usize = 0;
    while i < n
        invariant
            i <= n <= s@.len(),
            r@ == s@.subrange(0, i as int),
        decreases n - i,
    {
        r.push(s[i]);
        assert(s@.subrange(0, i + 1) =~= s@.subrange(0, i as int).push(s@[i as int]));
        i = i + 1;
    }
    r
}

proof fn lemma_colon_bounds(s: Seq<char>, from: int)
    requires
        0 <= from <= s.len(),
    ensures
        from <= colon_from(s, from) <= s.len(),
    decreases s.len() - from,
{
    if from < s.len() && s[from] != ':' {
        lemma_colon_bounds(s, from + 1);
    }
}

/// The pattern of a finding: `path:line`, one white-space character, `function()`.
pub open spec fn finding_pattern() -> Seq<char> {
    "(\\S+:[0-9]+)\\s(\\S+)\\(\\)"@
}

/// The pattern of a location reference inside a report line.
pub open spec fn reference_pattern() -> Seq<char> {
    "(\\S+:[0-9]+)"@
}

/// The static-analysis findings, in report order: a location and the function named
/// there. A later finding at the same location replaces an earlier one.
pub struct Findings {
    pub entries: Vec<(LineInfo, String)>,
}

/// Whether some string of `r` is `f`.
pub open spec fn lists_name(r: Seq<String>, f: Seq<char>) -> bool {
    exists|i: int| 0 <= i < r.len() && #[trigger] r[i]@ == f
}

/// Whether some entry before `n` that is the last at its location names function `f`.
pub open spec fn last_name_before(ev: Seq<((Seq<char>, u32), Seq<char>)>, n: int, f: Seq<char>) -> bool {
    exists|k: int| 0 <= k < n && #[trigger] is_last_at(ev, k) && ev[k].1 == f
}

/// Whether some location of `r` is `l`.
pub open spec fn lists_loc(r: Seq<LineInfo>, l: (Seq<char>, u32)) -> bool {
    exists|i: int| 0 <= i < r.len() && #[trigger] r[i]@ == l
}

/// Whether entry `i` is the last one at its location.
pub open spec fn is_last_at(s: Seq<((Seq<char>, u32), Seq<char>)>, i: int) -> bool {
    0 <= i < s.len() && forall|j: int| i < j < s.len() ==> #[trigger] s[j].0 != s[i].0
}

impl Findings {
    pub open spec fn entry_views(&self) -> Seq<((Seq<char>, u32), Seq<char>)> {
        self.entries@.map_values(|e: (LineInfo, String)| (e.0@, e.1@))
    }

    /// Whether some finding names location `l`.
    pub open spec fn has(&self, l: (Seq<char>, u32)) -> bool {
        exists|i: int| 0 <= i < self.entries@.len() && #[trigger] self.entries@[i].0@ == l
    }

    /// The function names that the findings map to: those of the last finding at
    /// each location.
    pub open spec fn functions(&self) -> Set<Seq<char>> {
        Set::new(|f: Seq<char>| exists|i: int| #[trigger] is_last_at(self.entry_views(), i) && self.entry_views()[i].1 == f)
    }

    /// Whether some finding names location `l`.
    pub fn contains(&self, l: &LineInfo) -> (r: bool)
        ensures
            r == self.has(l@),
    {
        let mut i: usize = 0;
        while i < self.entries.len()
            invariant
                i <= self.entries@.len(),
                forall|j: int| 0 <= j < i ==> #[trigger] self.entries@[j].0@ != l@,
            decreases self.entries.len() - i,
        {
            if self.entries[i].0.same(l) {
                return true;
            }
            i = i + 1;
        }
        false
    }

    /// The function names of the findings, one for each location (the last given there).
    pub fn function_names(&self) -> (r: Vec<String>)
        ensures
            forall|f: Seq<char>| #[trigger] lists_name(r@, f)
                <==> self.functions().contains(f),
    {
        let ghost ev = self.entry_views();
        let mut r: Vec<String> = Vec::new();
        let n = self.entries.len();
        let mut i: usize = 0;
        while i < n
            invariant
                i <= n == self.entries@.len(),
                ev == self.entry_views(),
                forall|f: Seq<char>| #[trigger] lists_name(r@, f)
                    <==> last_name_before(ev, i as int, f),
            decreases n - i,
        {
            let mut last = true;
            let mut j: usize = i + 1;
            while j < n
                invariant
                    i < j <= n == self.entries@.len(),
                    ev == self.entry_views(),
                    last == forall|m: int| i < m < j ==> #[trigger] ev[m].0 != ev[i as int].0,
                decreases n - j,
            {
                assert(ev[j as int].0 == self.entries@[j as int].0@);
                assert(ev[i as int].0 == self.entries@[i as int].0@);
                if self.entries[j].0.same(&self.entries[i].0) {
                    last = false;
                }
                j = j + 1;
            }
            assert(last == is_last_at(ev, i as int));
            if last {
                let ghost old_r = r@;
                assert(forall|f: Seq<char>| #[trigger] lists_name(old_r, f) <==> last_name_before(ev, i as int, f));
                r.push(self.entries[i].1.clone());
                assert(ev[i as int].1 == self.entries@[i as int].1@);
                assert forall|f: Seq<char>| #[trigger] lists_name(r@, f)
                    <==> last_name_before(ev, i + 1, f) by {
                    if lists_name(r@, f) {
                        let k = choose|k: int| 0 <= k < r@.len() && #[trigger] r@[k]@ == f;
                        if k < old_r.len() {
                            assert(old_r[k] == r@[k]);
                            assert(lists_name(old_r, f));
                        } else {
                            assert(is_last_at(ev, i as int));
                        }
                    }
                    if last_name_before(ev, i + 1, f) {
                        let k = choose|k: int| 0 <= k < i + 1 && #[trigger] is_last_at(ev, k) && ev[k].1 == f;
                        if k < i {
                            assert(last_name_before(ev, i as int, f));
                            assert(lists_name(old_r, f));
                            let m = choose|m: int| 0 <= m < old_r.len() && #[trigger] old_r[m]@ == f;
                            assert(r@[m] == old_r[m]);
                        } else {
                            assert(r@[old_r.len() as int]@ == f);
                        }
                    }
                }
            }
            i = i + 1;
        }
        assert forall|f: Seq<char>| #[trigger] lists_name(r@, f) <==> self.functions().contains(f) by {
            assert(lists_name(r@, f) <==> last_name_before(ev, n as int, f));
        }
        r
    }
}

/// The findings that a report's captures give, in order; `None` where a capture does not
/// name a valid location.
pub open spec fn findings_from(caps: Seq<(Seq<char>, Seq<char>)>) -> Option<Seq<((Seq<char>, u32), Seq<char>)>>
    decreases caps.len(),
{
    if caps.len() == 0 {
        Some(Seq::empty())
    } else {
        match (findings_from(caps.drop_last()), location_of(caps.last().0)) {
            (Some(fs), Some(l)) => Some(fs.push((l, caps.last().1))),
            _ => None,
        }
    }
}

/// Parses a findings report: every `path:line function()` in it is a finding. `None`
/// where a location in it has no valid line number.
pub fn parse_report(report: &str) -> (r: Option<Findings>)
    ensures
        match regex_captures(finding_pattern(), report@) {
            Some(caps) => match findings_from(caps) {
                Some(fs) => r matches Some(f) && f.entry_views() == fs,
                None => r is None,
            },
            None => r is None,
        },
{
    let pattern = "(\\S+:[0-9]+)\\s(\\S+)\\(\\)";
    proof { reveal_strlit("(\\S+:[0-9]+)\\s(\\S+)\\(\\)"); }
    assert(pattern@ == finding_pattern());
    let caps = match captures(pattern, report) {
        Some(c) => c,
        None => return None,
    };
    let ghost cs = pair_views(caps@);
    let mut entries: Vec<(LineInfo, String)> = Vec::new();
    let mut i: usize = 0;
    while i < caps.len()
        invariant
            i <= caps@.len(),
            cs == pair_views(caps@),
            regex_captures(finding_pattern(), report@) == Some(cs),
            findings_from(cs.subrange(0, i as int)) == Some(entries@.map_values(|e: (LineInfo, String)| (e.0@, e.1@))),
        decreases caps.len() - i,
    {
        let ghost sub = cs.subrange(0, i + 1);
        assert(sub.drop_last() =~= cs.subrange(0, i as int));
        assert(sub.last() == (caps@[i as int].0@, caps@[i as int].1@));
        match LineInfo::from_location(caps[i].0.as_str()) {
            Some(l) => {
                let ghost before = entries@;
                entries.push((l, caps[i].1.clone()));
                assert(entries@.map_values(|e: (LineInfo, String)| (e.0@, e.1@)) =~=
                    before.map_values(|e: (LineInfo, String)| (e.0@, e.1@)).push((l@, caps@[i as int].1@)));
            },
            None => {
                proof { lemma_findings_none_sticks(cs, (i + 1) as int); }
                assert(cs.subrange(0, cs.len() as int) =~= cs);
                return None;
            },
        }
        i = i + 1;
    }
    assert(cs.subrange(0, i as int) =~= cs);
    let f = Findings { entries };
    assert(f.entry_views() =~= f.entries@.map_values(|e: (LineInfo, String)| (e.0@, e.1@)));
    Some(f)
}

proof fn lemma_findings_none_sticks(cs: Seq<(Seq<char>, Seq<char>)>, n: int)
    requires
        0 <= n <= cs.len(),
        findings_from(cs.subrange(0, n)) is None,
    ensures
        findings_from(cs) is None,
    decreases cs.len() - n,
{
    if n < cs.len() {
        assert(cs.subrange(0, n + 1).drop_last() =~= cs.subrange(0, n));
        lemma_findings_none_sticks(cs, n + 1);
    } else {
        assert(cs.subrange(0, n) =~= cs);
    }
}

/// Whether location `l` counts as a hit: every resolved location does when all visited
/// lines are wanted, otherwise only one that a finding names.
pub open spec fn is_hit(l: (Seq<char>, u32), findings: &Findings, all_visited: bool) -> bool {
    all_visited || findings.has(l)
}

/// The hit set: the resolved locations that count as hits, each once.
pub fn hit_set(resolved: &Vec<LineInfo>, findings: &Findings, all_visited: bool) -> (r: Vec<LineInfo>)
    ensures
        forall|a: int, b: int| 0 <= a < b < r@.len() ==> #[trigger] r@[a]@ != #[trigger] r@[b]@,
        forall|l: (Seq<char>, u32)| #[trigger] lists_loc(r@, l)
            <==> (is_hit(l, findings, all_visited) && exists|j: int| 0 <= j < resolved@.len() && #[trigger] resolved@[j]@ == l),
{
    let mut r: Vec<LineInfo> = Vec::new();
    let mut i: usize = 0;
    while i < resolved.len()
        invariant
            i <= resolved@.len(),
            forall|a: int, b: int| 0 <= a < b < r@.len() ==> #[trigger] r@[a]@ != #[trigger] r@[b]@,
            forall|l: (Seq<char>, u32)| #[trigger] lists_loc(r@, l)
                <==> (is_hit(l, findings, all_visited) && exists|j: int| 0 <= j < i && #[trigger] resolved@[j]@ == l),
        decreases resolved.len() - i,
    {
        let l = &resolved[i];
        let mut seen = false;
        let mut k: usize = 0;
        while k < r.len()
            invariant
                k <= r@.len(),
                l == resolved@[i as int],
                seen == exists|m: int| 0 <= m < k && #[trigger] r@[m]@ == l@,
            decreases r.len() - k,
        {
            if r[k].same(l) {
                seen = true;
            }
            k = k + 1;
        }
        if !seen && (all_visited || findings.contains(l)) {
            let ghost old_r = r@;
            assert(forall|l2: (Seq<char>, u32)| #[trigger] lists_loc(old_r, l2)
                <==> (is_hit(l2, findings, all_visited) && exists|j: int| 0 <= j < i && #[trigger] resolved@[j]@ == l2));
            r.push(l.clone_info());
            assert forall|l2: (Seq<char>, u32)| #[trigger] lists_loc(r@, l2)
                <==> (is_hit(l2, findings, all_visited) && exists|j: int| 0 <= j < i + 1 && #[trigger] resolved@[j]@ == l2) by {
                if lists_loc(r@, l2) {
                    let k = choose|k: int| 0 <= k < r@.len() && #[trigger] r@[k]@ == l2;
                    if k < old_r.len() {
                        assert(old_r[k] == r@[k]);
                        assert(lists_loc(old_r, l2));
                    } else {
                        assert(resolved@[i as int]@ == l2);
                    }
                }
                if is_hit(l2, findings, all_visited) && exists|j: int| 0 <= j < i + 1 && #[trigger] resolved@[j]@ == l2 {
                    let j = choose|j: int| 0 <= j < i + 1 && #[trigger] resolved@[j]@ == l2;
                    if j < i {
                        assert(lists_loc(old_r, l2));
                        let m = choose|m: int| 0 <= m < old_r.len() && #[trigger] old_r[m]@ == l2;
                        assert(r@[m] == old_r[m]);
                    } else {
                        assert(r@[old_r.len() as int]@ == l2);
                    }
                }
            }
        } else {
            assert forall|l2: (Seq<char>, u32)| #[trigger] lists_loc(r@, l2)
                <==> (is_hit(l2, findings, all_visited) && exists|j: int| 0 <= j < i + 1 && #[trigger] resolved@[j]@ == l2) by {
                if is_hit(l2, findings, all_visited) && exists|j: int| 0 <= j < i + 1 && #[trigger] resolved@[j]@ == l2 {
                    let j = choose|j: int| 0 <= j < i + 1 && #[trigger] resolved@[j]@ == l2;
                    if j == i {
                        assert(is_hit(l@, findings, all_visited));
                    }
                }
            }
        }
        i = i + 1;
    }
    r
}

impl LineInfo {
    /// A copy of the location.
    pub fn clone_info(&self) -> (r: LineInfo)
        ensures
            r@ == self@,
    {
        LineInfo { path: self.path.clone(), line: self.line }
    }
}

/// Whether a report line refers to a location of the hit set.
pub open spec fn line_hits(line: Seq<char>, hits: Seq<LineInfo>) -> bool {
    match regex_captures(reference_pattern(), line) {
        Some(cs) => any_ref_hits(cs, hits),
        None => false,
    }
}

/// Whether some captured reference names a location of the hit set.
pub open spec fn any_ref_hits(cs: Seq<(Seq<char>, Seq<char>)>, hits: Seq<LineInfo>) -> bool {
    exists|k: int| 0 <= k < cs.len() && #[trigger] ref_hits(cs[k].0, hits)
}

/// Whether reference text names a location of the hit set.
pub open spec fn ref_hits(r: Seq<char>, hits: Seq<LineInfo>) -> bool {
    match location_of(r) {
        Some(l) => lists_loc(hits, l),
        None => false,
    }
}

/// The report lines that refer to a hit, in report order.
pub open spec fn kept_lines(lines: Seq<String>, hits: Seq<LineInfo>) -> Seq<Seq<char>>
    decreases lines.len(),
{
    if lines.len() == 0 {
        Seq::empty()
    } else if line_hits(lines.last()@, hits) {
        kept_lines(lines.drop_last(), hits).push(lines.last()@)
    } else {
        kept_lines(lines.drop_last(), hits)
    }
}

fn find_loc(hits: &Vec<LineInfo>, l: &LineInfo) -> (r: bool)
    ensures
        r == lists_loc(hits@, l@),
{
    let mut i: usize = 0;
    while i < hits.len()
        invariant
            i <= hits@.len(),
            forall|j: int| 0 <= j < i ==> #[trigger] hits@[j]@ != l@,
        decreases hits.len() - i,
    {
        if hits[i].same(l) {
            return true;
        }
        i = i + 1;
    }
    false
}

fn refers_to_hit(line: &String, hits: &Vec<LineInfo>) -> (r: bool)
    ensures
        r == line_hits(line@, hits@),
{
    let pattern = "(\\S+:[0-9]+)";
    proof { reveal_strlit("(\\S+:[0-9]+)"); }
    assert(pattern@ == reference_pattern());
    let caps = match captures(pattern, line.as_str()) {
        Some(c) => c,
        None => return false,
    };
    let ghost cs = pair_views(caps@);
    let mut k: usize = 0;
    while k < caps.len()
        invariant
            k <= caps@.len(),
            cs == pair_views(caps@),
            regex_captures(reference_pattern(), line@) == Some(cs),
            forall|j: int| 0 <= j < k ==> !#[trigger] ref_hits(cs[j].0, hits@),
        decreases caps.len() - k,
    {
        assert(cs[k as int].0 == caps@[k as int].0@);
        match LineInfo::from_location(caps[k].0.as_str()) {
            Some(l) => {
                if find_loc(hits, &l) {
                    assert(ref_hits(cs[k as int].0, hits@));
                    assert(any_ref_hits(cs, hits@));
                    return true;
                }
            },
            None => {},
        }
        k = k + 1;
    }
    false
}

/// The lines of a findings report that refer to a location of the hit set, in order.
pub fn matched_report_lines(lines: &Vec<String>, hits: &Vec<LineInfo>) -> (r: Vec<String>)
    ensures
        r@.map_values(|l: String| l@) == kept_lines(lines@, hits@),
{
    let mut r: Vec<String> = Vec::new();
    let mut i: usize = 0;
    while i < lines.len()
        invariant
            i <= lines@.len(),
            r@.map_values(|l: String| l@) == kept_lines(lines@.subrange(0, i as int), hits@),
        decreases lines.len() - i,
    {
        let ghost sub = lines@.subrange(0, i + 1);
        assert(sub.drop_last() =~= lines@.subrange(0, i as int));
        assert(sub.last() == lines@[i as int]);
        if refers_to_hit(&lines[i], hits) {
            let ghost before = r@;
            r.push(lines[i].clone());
            assert(r@.map_values(|l: String| l@) =~= before.map_values(|l: String| l@).push(lines@[i as int]@));
        }
        i = i + 1;
    }
    assert(lines@.subrange(0, i as int) =~= lines@);
    r
}

/// What is left of a file path once a directory prefix is taken off its front, compared
/// component by component; `None` where the prefix is not one.
pub uninterp spec fn path_after_prefix(file: Seq<char>, prefix: Seq<char>) -> Option<Seq<char>>;

/// Relies on `Path::strip_prefix`: the rest of the path after the prefix's components.
#[verifier::external_body]
fn strip_path_prefix(file: &str, prefix: &str) -> (r: Option<String>)
    ensures
        match path_after_prefix(file@, prefix@) {
            Some(p) => r matches Some(s) && s@ == p,
            None => r is None,
        },
{
    std::path::Path::new(file).strip_prefix(prefix).ok().and_then(|p| p.to_str()).map(|p| p.to_string())
}

/// The path under which debug information's `file` is reported: relative to `prefix`
/// where that is a leading directory of it, else the path itself.
pub open spec fn reported_path(file: Seq<char>, prefix: Seq<char>) -> Seq<char> {
    match path_after_prefix(file, prefix) {
        Some(p) => p,
        None => file,
    }
}

impl LineInfo {
    /// The location that debug information gives as `file` and `line`, with the source
    /// directory `prefix` taken off the path where it leads it, and the path normalized.
    pub fn resolved(file: &str, line: u32, prefix: &str) -> (r: LineInfo)
        ensures
            r@ == (normalized(reported_path(file@, prefix@)), line),
    {
        match strip_path_prefix(file, prefix) {
            Some(p) => LineInfo::new(p.as_str(), line),
            None => LineInfo::new(file, line),
        }
    }
}

} // verus!
