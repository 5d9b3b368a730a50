//! The structured finding extracted from one raw log line, and the
//! extraction grammar applied to that line.

use vstd::prelude::*;

verus! {

/// Severity bucket assigned by the scanner's rule engine.
#[derive(Clone, Copy, PartialEq, Eq, Structural, Debug)]
pub enum TriageLevel {
    Green,
    Yellow,
    Red,
    Black,
}

/// Access-mode token of the angle-bracketed segment: read-only or
/// read-write.
#[derive(Clone, Copy, PartialEq, Eq, Structural, Debug)]
pub enum AccessMode {
    Read,
    ReadWrite,
}

/// Mathematical model of a record: the four captured fields, with the text
/// fields as character sequences.
#[verifier::ext_equal]
pub struct RecordView {
    pub triage_level: TriageLevel,
    pub rule: Seq<char>,
    pub filepath: Seq<char>,
    pub match_context: Seq<char>,
}

/// A structured finding: one file-content match reported by the scanner.
///
/// A value of this type exists only for a line that matched the full
/// extraction grammar; it is immutable after creation.
#[derive(Debug, Clone, PartialEq, Eq)]
pub struct SnafflerRecord {
    /// Severity bucket, one of the four enumerated values.
    pub triage_level: TriageLevel,
    /// Identifier of the rule that produced the match; may be empty.
    pub rule: String,
    /// Path where the match was found; non-empty.
    pub filepath: String,
    /// Free-text snippet surrounding the match; may be empty.
    pub match_context: String,
}

impl View for SnafflerRecord {
    type V = RecordView;

    open spec fn view(&self) -> RecordView {
        RecordView {
            triage_level: self.triage_level,
            rule: self.rule@,
            filepath: self.filepath@,
            match_context: self.match_context@,
        }
    }
}

/// Failure of the record extractor: the line does not conform to the
/// grammar.
#[derive(Clone, Copy, PartialEq, Eq, Structural, Debug)]
pub enum ExtractionError {
    NoMatch,
}

/// Whether `c` is an ASCII decimal digit.
pub open spec fn is_digit(c: char) -> bool {
    48 <= c as u32 && c as u32 <= 57
}

/// What the character at position `x` of a well-formed timestamp must be:
/// `YYYY-MM-DD HH:MM:SS`, digits everywhere but the five separators.
pub open spec fn ts_char_ok(t: Seq<char>, x: int) -> bool {
    if x == 4 || x == 7 {
        t[x] == '-'
    } else if x == 10 {
        t[x] == ' '
    } else if x == 13 || x == 16 {
        t[x] == ':'
    } else {
        is_digit(t[x])
    }
}

/// A well-formed timestamp: 19 characters of shape `YYYY-MM-DD HH:MM:SS`.
pub open spec fn ts_shape(t: Seq<char>) -> bool {
    t.len() == 19 && forall|x: int| 0 <= x < 19 ==> #[trigger] ts_char_ok(t, x)
}

/// The spelled-out form of a triage level, as it stands in a log line.
pub open spec fn level_seq(l: TriageLevel) -> Seq<char> {
    match l {
        TriageLevel::Green => seq!['G', 'r', 'e', 'e', 'n'],
        TriageLevel::Yellow => seq!['Y', 'e', 'l', 'l', 'o', 'w'],
        TriageLevel::Red => seq!['R', 'e', 'd'],
        TriageLevel::Black => seq!['B', 'l', 'a', 'c', 'k'],
    }
}

/// The spelled-out form of an access-mode token.
pub open spec fn mode_seq(m: AccessMode) -> Seq<char> {
    match m {
        AccessMode::Read => seq!['R'],
        AccessMode::ReadWrite => seq!['R', 'W'],
    }
}

/// The literal `[File]` tag.
pub open spec fn file_tag() -> Seq<char> {
    seq!['[', 'F', 'i', 'l', 'e', ']']
}

/// Position of the first occurrence of `c` in `s` at or after `from`.
pub open spec fn find_from(s: Seq<char>, from: int, c: char) -> Option<int>
    decreases s.len() - from,
{
    if from < 0 || from >= s.len() {
        None
    } else if s[from] == c {
        Some(from)
    } else {
        find_from(s, from + 1, c)
    }
}

/// Position of the last `")` followed by a space`" at or before `k`.
pub open spec fn find_paren_space(s: Seq<char>, k: int) -> Option<int>
    decreases k + 1,
{
    if k < 0 {
        None
    } else if k + 1 < s.len() && s[k] == ')' && s[k + 1] == ' ' {
        Some(k)
    } else {
        find_paren_space(s, k - 1)
    }
}

/// Whether the text `t` stands in `s` at position `p`.
pub open spec fn match_at(s: Seq<char>, p: int, t: Seq<char>) -> bool {
    p >= 0 && p + t.len() <= s.len() && s.subrange(p, p + t.len()) == t
}

/// `match_at`, characterised character by character.
proof fn lemma_match_at(s: Seq<char>, p: int, t: Seq<char>)
    requires
        p >= 0,
    ensures
        match_at(s, p, t) <==> (p + t.len() <= s.len() && forall|i: int|
            0 <= i < t.len() ==> s[p + i] == #[trigger] t[i]),
{
    if p + t.len() <= s.len() {
        let sub = s.subrange(p, p + t.len());
        assert forall|i: int| 0 <= i < t.len() implies sub[i] == s[p + i] by {}
        if forall|i: int| 0 <= i < t.len() ==> s[p + i] == #[trigger] t[i] {
            assert(sub =~= t);
        }
        if sub == t {
            assert forall|i: int| 0 <= i < t.len() implies s[p + i] == #[trigger] t[i] by {
                assert(sub[i] == t[i]);
            }
        }
    }
}

/// The bracketed context segment `[user\domain@host]` with `close` at the
/// closing bracket: a backslash after a non-empty user part, then an `@`
/// after a non-empty domain part, with a non-empty host part left.
pub open spec fn bracket_ok(s: Seq<char>, close: int) -> bool {
    match find_from(s, 1, '\\') {
        None => false,
        Some(bs) => bs >= 2 && bs < close && (match find_from(s, bs + 1, '@') {
            None => false,
            Some(at) => at >= bs + 2 && at + 2 <= close,
        }),
    }
}

/// The triage level spelled at position `p`, if any; the four spellings
/// start with distinct characters, so at most one can match.
pub open spec fn parse_level(s: Seq<char>, p: int) -> Option<TriageLevel> {
    if match_at(s, p, level_seq(TriageLevel::Green)) {
        Some(TriageLevel::Green)
    } else if match_at(s, p, level_seq(TriageLevel::Yellow)) {
        Some(TriageLevel::Yellow)
    } else if match_at(s, p, level_seq(TriageLevel::Red)) {
        Some(TriageLevel::Red)
    } else if match_at(s, p, level_seq(TriageLevel::Black)) {
        Some(TriageLevel::Black)
    } else {
        None
    }
}

/// The extraction grammar, applied to one line.
///
/// A line matches when it consists, in order, of: a bracketed
/// `user\domain@host` segment; a space; a 19-character timestamp followed
/// by `Z`; a space; the literal `[File]`; a space; a triage level in
/// braces; an angle-bracketed segment holding a possibly empty rule, a
/// `|`, an access-mode token `R` or `RW`, a `|`, a free field, a `|`, a
/// second non-empty free field, a `|`, and a second timestamp followed by
/// `Z`; a parenthesized non-empty filepath; a space; and the match
/// context as the remainder. The filepath's closing delimiter is the last
/// `") "` of the line, so a filepath may itself contain parentheses and
/// spaces. The grammar is deliberately deterministic: the scanned
/// delimiters are the first `]`, `\`, `@` and `|` of their segments, so
/// those segments cannot contain their own delimiter, where a
/// backtracking matcher could instead accept such a line by splitting it
/// at a later delimiter.
pub open spec fn parse_line_spec(s: Seq<char>) -> Option<RecordView> {
    if s.len() < 1 || s[0] != '[' {
        None
    } else {
        match find_from(s, 1, ']') {
            None => None,
            Some(close) => if !bracket_ok(s, close) {
                None
            } else if !(close + 30 < s.len() && s[close + 1] == ' ' && ts_shape(
                s.subrange(close + 2, close + 21),
            ) && s[close + 21] == 'Z' && s[close + 22] == ' ' && match_at(s, close + 23, file_tag())
                && s[close + 29] == ' ' && s[close + 30] == '{') {
                None
            } else {
                match parse_level(s, close + 31) {
                    None => None,
                    Some(level) => {
                        let lp = close + 31 + level_seq(level).len();
                        if !(lp + 1 < s.len() && s[lp] == '}' && s[lp + 1] == '<') {
                            None
                        } else {
                            parse_angle_and_tail(s, level, lp + 2)
                        }
                    },
                }
            },
        }
    }
}

/// The angle-bracketed segment starting at `rs`, and the parenthesized
/// tail of the line; the captured fields are assembled here.
pub open spec fn parse_angle_and_tail(s: Seq<char>, level: TriageLevel, rs: int) -> Option<
    RecordView,
> {
    match find_from(s, rs, '|') {
        None => None,
        Some(re) => {
            let f1s = if re + 2 < s.len() && s[re + 1] == 'R' && s[re + 2] == '|' {
                re + 3
            } else if re + 3 < s.len() && s[re + 1] == 'R' && s[re + 2] == 'W' && s[re + 3]
                == '|' {
                re + 4
            } else {
                0
            };
            if f1s == 0 {
                None
            } else {
                match find_from(s, f1s, '|') {
                    None => None,
                    Some(f1e) => match find_from(s, f1e + 1, '|') {
                        None => None,
                        Some(f2e) => if f2e < f1e + 2 {
                            None
                        } else {
                            let t2 = f2e + 1;
                            if !(t2 + 21 < s.len() && ts_shape(s.subrange(t2, t2 + 19)) && s[t2
                                + 19] == 'Z' && s[t2 + 20] == '>' && s[t2 + 21] == '(') {
                                None
                            } else {
                                let fs = t2 + 22;
                                match find_paren_space(s, s.len() - 2) {
                                    None => None,
                                    Some(kk) => if !(fs < kk) {
                                        None
                                    } else {
                                        Some(
                                            RecordView {
                                                triage_level: level,
                                                rule: s.subrange(rs, re),
                                                filepath: s.subrange(fs, kk),
                                                match_context: s.subrange(kk + 2, s.len() as int),
                                            },
                                        )
                                    },
                                }
                            }
                        },
                    },
                }
            }
        },
    }
}

/// First occurrence of `c` in `s` at or after `from`, by a linear scan.
#[verifier::loop_isolation(false)]
fn find_char(s: &str, from: usize, c: char) -> (r: Option<usize>)
    requires
        from <= s@.len(),
    ensures
        match r {
            Some(e) => find_from(s@, from as int, c) == Some(e as int) && from <= e < s@.len(),
            None => find_from(s@, from as int, c) is None,
        },
{
    let n = s.unicode_len();
    let mut i = from;
    while i < n
        invariant
            from <= i <= n,
            find_from(s@, from as int, c) == find_from(s@, i as int, c),
        decreases n - i,
    {
        if s.get_char(i) == c {
            return Some(i);
        }
        i += 1;
    }
    None
}

/// Last `") "` of the line, by a backward scan.
#[verifier::loop_isolation(false)]
fn find_close_paren(s: &str) -> (r: Option<usize>)
    ensures
        match r {
            Some(kk) => find_paren_space(s@, s@.len() - 2) == Some(kk as int) && kk + 2 <= s@.len(),
            None => find_paren_space(s@, s@.len() - 2) is None,
        },
{
    let n = s.unicode_len();
    if n < 2 {
        return None;
    }
    let mut k = n - 1;
    while k > 0
        invariant
            k <= n - 1,
            find_paren_space(s@, n - 2) == find_paren_space(s@, k - 1),
        decreases k,
    {
        let kk = k - 1;
        if s.get_char(kk) == ')' && s.get_char(k) == ' ' {
            return Some(kk);
        }
        k -= 1;
    }
    None
}

/// Whether the 19 characters of `s` at `p` form a well-shaped timestamp.
#[verifier::loop_isolation(false)]
fn check_timestamp(s: &str, p: usize) -> (r: bool)
    requires
        p + 19 <= s@.len(),
    ensures
        r == ts_shape(s@.subrange(p as int, p as int + 19)),
{
    let n = s.unicode_len();
    let ghost t = s@.subrange(p as int, p as int + 19);
    let mut i: usize = 0;
    while i < 19
        invariant
            i <= 19,
            forall|x: int| 0 <= x < i ==> #[trigger] ts_char_ok(t, x),
        decreases 19 - i,
    {
        let c = s.get_char(p + i);
        proof {
            assert(t[i as int] == s@[p + i]);
        }
        let good = if i == 4 || i == 7 {
            c == '-'
        } else if i == 10 {
            c == ' '
        } else if i == 13 || i == 16 {
            c == ':'
        } else {
            let u = c as u32;
            48 <= u && u <= 57
        };
        if !good {
            proof {
                assert(!ts_char_ok(t, i as int));
            }
            return false;
        }
        proof {
            assert(ts_char_ok(t, i as int));
        }
        i += 1;
    }
    true
}

/// The triage level spelled at position `p` of `s`, with the position just
/// after it.
#[verifier::loop_isolation(false)]
fn parse_level_exec(s: &str, p: usize) -> (r: Option<(TriageLevel, usize)>)
    requires
        p <= s@.len(),
    ensures
        match r {
            Some(lv) => parse_level(s@, p as int) == Some(lv.0) && lv.1 == p + level_seq(
                lv.0,
            ).len(),
            None => parse_level(s@, p as int) is None,
        },
{
    let n = s.unicode_len();
    proof {
        lemma_match_at(s@, p as int, level_seq(TriageLevel::Green));
        lemma_match_at(s@, p as int, level_seq(TriageLevel::Yellow));
        lemma_match_at(s@, p as int, level_seq(TriageLevel::Red));
        lemma_match_at(s@, p as int, level_seq(TriageLevel::Black));
    }
    if n - p >= 5 && s.get_char(p) == 'G' && s.get_char(p + 1) == 'r' && s.get_char(p + 2) == 'e'
        && s.get_char(p + 3) == 'e' && s.get_char(p + 4) == 'n' {
        return Some((TriageLevel::Green, p + 5));
    }
    if n - p >= 6 && s.get_char(p) == 'Y' && s.get_char(p + 1) == 'e' && s.get_char(p + 2) == 'l'
        && s.get_char(p + 3) == 'l' && s.get_char(p + 4) == 'o' && s.get_char(p + 5) == 'w' {
        return Some((TriageLevel::Yellow, p + 6));
    }
    if n - p >= 3 && s.get_char(p) == 'R' && s.get_char(p + 1) == 'e' && s.get_char(p + 2) == 'd' {
        return Some((TriageLevel::Red, p + 3));
    }
    if n - p >= 5 && s.get_char(p) == 'B' && s.get_char(p + 1) == 'l' && s.get_char(p + 2) == 'a'
        && s.get_char(p + 3) == 'c' && s.get_char(p + 4) == 'k' {
        return Some((TriageLevel::Black, p + 5));
    }
    None
}

impl SnafflerRecord {
    /// Extract a structured record from one raw log line: `Ok` with the
    /// four captured fields exactly when the line matches the grammar
    /// ([`parse_line_spec`]), and `Err(NoMatch)` exactly when it does not.
    #[verifier::loop_isolation(false)]
    #[verifier::rlimit(100)]
    pub fn from_str(s: &str) -> (r: Result<SnafflerRecord, ExtractionError>)
        ensures
            match r {
                Ok(rec) => parse_line_spec(s@) == Some(rec@),
                Err(e) => parse_line_spec(s@) is None && e == ExtractionError::NoMatch,
            },
    {
        let n = s.unicode_len();
        if n < 1 || s.get_char(0) != '[' {
            return Err(ExtractionError::NoMatch);
        }
        let close = match find_char(s, 1, ']') {
            Some(c) => c,
            None => {
                return Err(ExtractionError::NoMatch);
            },
        };
        let bs = match find_char(s, 1, '\\') {
            Some(b) => b,
            None => {
                return Err(ExtractionError::NoMatch);
            },
        };
        if !(bs >= 2 && bs < close) {
            return Err(ExtractionError::NoMatch);
        }
        let at = match find_char(s, bs + 1, '@') {
            Some(a) => a,
            None => {
                return Err(ExtractionError::NoMatch);
            },
        };
        if !(at >= bs + 2 && at <= close - 2) {
            return Err(ExtractionError::NoMatch);
        }
        if n < 31 || close >= n - 30 {
            return Err(ExtractionError::NoMatch);
        }
        if s.get_char(close + 1) != ' ' {
            return Err(ExtractionError::NoMatch);
        }
        if !check_timestamp(s, close + 2) {
            return Err(ExtractionError::NoMatch);
        }
        if s.get_char(close + 21) != 'Z' || s.get_char(close + 22) != ' ' {
            return Err(ExtractionError::NoMatch);
        }
        proof {
            lemma_match_at(s@, close + 23, file_tag());
        }
        if s.get_char(close + 23) != '[' || s.get_char(close + 24) != 'F' || s.get_char(close + 25)
            != 'i' || s.get_char(close + 26) != 'l' || s.get_char(close + 27) != 'e'
            || s.get_char(close + 28) != ']' {
            return Err(ExtractionError::NoMatch);
        }
        if s.get_char(close + 29) != ' ' || s.get_char(close + 30) != '{' {
            return Err(ExtractionError::NoMatch);
        }
        let (level, lp) = match parse_level_exec(s, close + 31) {
            Some(x) => x,
            None => {
                return Err(ExtractionError::NoMatch);
            },
        };
        if lp >= n - 1 {
            return Err(ExtractionError::NoMatch);
        }
        if s.get_char(lp) != '}' || s.get_char(lp + 1) != '<' {
            return Err(ExtractionError::NoMatch);
        }
        let rs = lp + 2;
        let re = match find_char(s, rs, '|') {
            Some(x) => x,
            None => {
                return Err(ExtractionError::NoMatch);
            },
        };
        let f1s: usize;
        if n - re > 2 && s.get_char(re + 1) == 'R' && s.get_char(re + 2) == '|' {
            f1s = re + 3;
        } else if n - re > 3 && s.get_char(re + 1) == 'R' && s.get_char(re + 2) == 'W'
            && s.get_char(re + 3) == '|' {
            f1s = re + 4;
        } else {
            return Err(ExtractionError::NoMatch);
        }
        let f1e = match find_char(s, f1s, '|') {
            Some(x) => x,
            None => {
                return Err(ExtractionError::NoMatch);
            },
        };
        let f2e = match find_char(s, f1e + 1, '|') {
            Some(x) => x,
            None => {
                return Err(ExtractionError::NoMatch);
            },
        };
        if f2e - f1e < 2 {
            return Err(ExtractionError::NoMatch);
        }
        let t2 = f2e + 1;
        if n < 22 || t2 >= n - 21 {
            return Err(ExtractionError::NoMatch);
        }
        if !check_timestamp(s, t2) {
            return Err(ExtractionError::NoMatch);
        }
        if s.get_char(t2 + 19) != 'Z' || s.get_char(t2 + 20) != '>' || s.get_char(t2 + 21) != '(' {
            return Err(ExtractionError::NoMatch);
        }
        let fs = t2 + 22;
        let kk = match find_close_paren(s) {
            Some(x) => x,
            None => {
                return Err(ExtractionError::NoMatch);
            },
        };
        if !(fs < kk) {
            return Err(ExtractionError::NoMatch);
        }
        let rule = String::from_str(s.substring_char(rs, re));
        let filepath = String::from_str(s.substring_char(fs, kk));
        let match_context = String::from_str(s.substring_char(kk + 2, n));
        let rec = SnafflerRecord { triage_level: level, rule, filepath, match_context };
        proof {
            assert(parse_line_spec(s@) == Some(rec@));
        }
        Ok(rec)
    }
}

/// Whether the `[File]` marker stands anywhere in the line: the heuristic
/// by which a caller tells a failed finding line from an unrelated line.
pub open spec fn contains_marker(s: Seq<char>) -> bool {
    exists|k: int| 0 <= k && #[trigger] match_at(s, k, file_tag())
}

/// Whether the line contains the literal `[File]` marker.
#[verifier::loop_isolation(false)]
pub fn contains_file_marker(line: &str) -> (r: bool)
    ensures
        r == contains_marker(line@),
{
    let n = line.unicode_len();
    if n < 6 {
        proof {
            assert forall|k: int| 0 <= k implies !match_at(line@, k, file_tag()) by {}
        }
        return false;
    }
    let mut k: usize = 0;
    while k <= n - 6
        invariant
            k <= n - 5,
            forall|k2: int| 0 <= k2 < k ==> !match_at(line@, k2, file_tag()),
        decreases n - k,
    {
        proof {
            lemma_match_at(line@, k as int, file_tag());
        }
        if line.get_char(k) == '[' && line.get_char(k + 1) == 'F' && line.get_char(k + 2) == 'i'
            && line.get_char(k + 3) == 'l' && line.get_char(k + 4) == 'e' && line.get_char(k + 5)
            == ']' {
            proof {
                assert(match_at(line@, k as int, file_tag()));
            }
            return true;
        }
        k += 1;
    }
    proof {
        assert forall|k2: int| 0 <= k2 implies !match_at(line@, k2, file_tag()) by {
            if k2 > n - 6 {
                assert(!match_at(line@, k2, file_tag()));
            }
        }
    }
    false
}

/// The bracketed context segment of a built line.
pub open spec fn build_head(user: Seq<char>, domain: Seq<char>, host: Seq<char>) -> Seq<char> {
    seq!['['] + user + seq!['\\'] + domain + seq!['@'] + host + seq![']']
}

/// The timestamp, tag and level segment of a built line.
pub open spec fn build_mid(ts1: Seq<char>, level: TriageLevel) -> Seq<char> {
    seq![' '] + ts1 + seq!['Z', ' '] + file_tag() + seq![' ', '{'] + level_seq(level) + seq!['}']
}

/// The angle-bracketed segment of a built line.
pub open spec fn build_angle(
    rule: Seq<char>,
    mode: AccessMode,
    f1: Seq<char>,
    f2: Seq<char>,
    ts2: Seq<char>,
) -> Seq<char> {
    seq!['<'] + rule + seq!['|'] + mode_seq(mode) + seq!['|'] + f1 + seq!['|'] + f2 + seq!['|']
        + ts2 + seq!['Z', '>']
}

/// The filepath and context tail of a built line.
pub open spec fn build_tail(filepath: Seq<char>, context: Seq<char>) -> Seq<char> {
    seq!['('] + filepath + seq![')', ' '] + context
}

/// A whole line assembled from its segments, in grammar order.
pub open spec fn build_line_spec(
    user: Seq<char>,
    domain: Seq<char>,
    host: Seq<char>,
    ts1: Seq<char>,
    level: TriageLevel,
    rule: Seq<char>,
    mode: AccessMode,
    f1: Seq<char>,
    f2: Seq<char>,
    ts2: Seq<char>,
    filepath: Seq<char>,
    context: Seq<char>,
) -> Seq<char> {
    build_head(user, domain, host) + build_mid(ts1, level) + build_angle(rule, mode, f1, f2, ts2)
        + build_tail(filepath, context)
}

/// No occurrence of `c` anywhere in `s`.
pub open spec fn no_char(s: Seq<char>, c: char) -> bool {
    forall|i: int| 0 <= i < s.len() ==> (#[trigger] s[i]) != c
}

/// No `") "` pair anywhere in `s`.
pub open spec fn no_paren_space(s: Seq<char>) -> bool {
    forall|i: int| 0 <= i && i + 1 < s.len() ==> !((#[trigger] s[i]) == ')' && s[i + 1] == ' ')
}

/// The segments from which a built line re-extracts exactly: the
/// bracketed parts are non-empty and free of the delimiters that end
/// them, the timestamps are well-shaped, the rule (which may be empty)
/// and the two free fields are free of `|`, the second free field is
/// non-empty, the filepath is non-empty, and the context holds no `") "`
/// pair, which would shift the filepath delimiter.
pub open spec fn buildable(
    user: Seq<char>,
    domain: Seq<char>,
    host: Seq<char>,
    ts1: Seq<char>,
    rule: Seq<char>,
    f1: Seq<char>,
    f2: Seq<char>,
    ts2: Seq<char>,
    filepath: Seq<char>,
    context: Seq<char>,
) -> bool {
    &&& user.len() > 0 && no_char(user, ']') && no_char(user, '\\')
    &&& domain.len() > 0 && no_char(domain, ']') && no_char(domain, '@')
    &&& host.len() > 0 && no_char(host, ']')
    &&& ts_shape(ts1) && ts_shape(ts2)
    &&& no_char(rule, '|')
    &&& no_char(f1, '|')
    &&& f2.len() > 0 && no_char(f2, '|')
    &&& filepath.len() > 0
    &&& no_paren_space(context)
}

/// Assemble a log line from its segments, in grammar order.
#[verifier::spinoff_prover]
#[verifier::rlimit(100)]
pub fn build_line(
    user: &str,
    domain: &str,
    host: &str,
    ts1: &str,
    level: TriageLevel,
    rule: &str,
    mode: AccessMode,
    f1: &str,
    f2: &str,
    ts2: &str,
    filepath: &str,
    context: &str,
) -> (line: String)
    ensures
        line@ == build_line_spec(
            user@,
            domain@,
            host@,
            ts1@,
            level,
            rule@,
            mode,
            f1@,
            f2@,
            ts2@,
            filepath@,
            context@,
        ),
{
    let ghost h = build_head(user@, domain@, host@);
    let ghost m = build_mid(ts1@, level);
    let ghost a = build_angle(rule@, mode, f1@, f2@, ts2@);
    let ghost t = build_tail(filepath@, context@);
    let mut line = String::new();
    line.append("[");
    line.append(user);
    line.append("\\");
    line.append(domain);
    line.append("@");
    line.append(host);
    line.append("]");
    proof {
        reveal_strlit("[");
        reveal_strlit("\\");
        reveal_strlit("@");
        reveal_strlit("]");
        assert(line@ =~= h);
    }
    line.append(" ");
    line.append(ts1);
    line.append("Z [File] {");
    match level {
        TriageLevel::Green => line.append("Green"),
        TriageLevel::Yellow => line.append("Yellow"),
        TriageLevel::Red => line.append("Red"),
        TriageLevel::Black => line.append("Black"),
    }
    line.append("}");
    proof {
        reveal_strlit(" ");
        reveal_strlit("Z [File] {");
        reveal_strlit("Green");
        reveal_strlit("Yellow");
        reveal_strlit("Red");
        reveal_strlit("Black");
        reveal_strlit("}");
        assert(line@ =~= h + m);
    }
    line.append("<");
    line.append(rule);
    line.append("|");
    match mode {
        AccessMode::Read => line.append("R"),
        AccessMode::ReadWrite => line.append("RW"),
    }
    line.append("|");
    line.append(f1);
    line.append("|");
    line.append(f2);
    line.append("|");
    line.append(ts2);
    line.append("Z>");
    proof {
        reveal_strlit("<");
        reveal_strlit("|");
        reveal_strlit("R");
        reveal_strlit("RW");
        reveal_strlit("Z>");
        assert(line@ =~= h + m + a);
    }
    line.append("(");
    line.append(filepath);
    line.append(") ");
    line.append(context);
    proof {
        reveal_strlit("(");
        reveal_strlit(") ");
        assert(line@ =~= h + m + a + t);
    }
    line
}

/// `find_from` finds `e` when `c` stands at `e` and nowhere earlier.
proof fn lemma_find_from_hit(s: Seq<char>, from: int, c: char, e: int)
    requires
        0 <= from <= e < s.len(),
        s[e] == c,
        forall|k: int| from <= k < e ==> s[k] != c,
    ensures
        find_from(s, from, c) == Some(e),
    decreases e - from,
{
    if from < e {
        lemma_find_from_hit(s, from + 1, c, e);
    }
}

/// `find_paren_space` finds `k` when the pair stands at `k` and nowhere
/// later up to `k0`.
proof fn lemma_find_paren_hit(s: Seq<char>, k0: int, k: int)
    requires
        0 <= k <= k0,
        k0 + 1 < s.len(),
        s[k] == ')',
        s[k + 1] == ' ',
        forall|m: int| k < m <= k0 ==> !((#[trigger] s[m]) == ')' && s[m + 1] == ' '),
    ensures
        find_paren_space(s, k0) == Some(k),
    decreases k0,
{
    if k0 > k {
        lemma_find_paren_hit(s, k0 - 1, k);
    }
}

/// The front of a built line parses as built: the scans of the bracket
/// segment land on the built delimiters, and the timestamp, tag and level
/// stand at their positions.
#[verifier::spinoff_prover]
#[verifier::rlimit(100)]
proof fn lemma_round_trip_front(
    user: Seq<char>,
    domain: Seq<char>,
    host: Seq<char>,
    ts1: Seq<char>,
    level: TriageLevel,
    rule: Seq<char>,
    mode: AccessMode,
    f1: Seq<char>,
    f2: Seq<char>,
    ts2: Seq<char>,
    filepath: Seq<char>,
    context: Seq<char>,
)
    requires
        buildable(user, domain, host, ts1, rule, f1, f2, ts2, filepath, context),
    ensures
        ({
            let s = build_line_spec(
                user,
                domain,
                host,
                ts1,
                level,
                rule,
                mode,
                f1,
                f2,
                ts2,
                filepath,
                context,
            );
            let close = 3 + user.len() as int + domain.len() + host.len();
            let lp = close + 31 + level_seq(level).len();
            &&& s.len() >= 1 && s[0] == '['
            &&& find_from(s, 1, ']') == Some(close as int)
            &&& bracket_ok(s, close as int)
            &&& close + 30 < s.len()
            &&& s[close + 1] == ' '
            &&& ts_shape(s.subrange(close + 2, close + 21))
            &&& s[close + 21] == 'Z' && s[close + 22] == ' '
            &&& match_at(s, close + 23, file_tag())
            &&& s[close + 29] == ' ' && s[close + 30] == '{'
            &&& parse_level(s, close + 31) == Some(level)
            &&& lp + 1 < s.len() && s[lp] == '}' && s[lp + 1] == '<'
        }),
{
    let s = build_line_spec(
        user,
        domain,
        host,
        ts1,
        level,
        rule,
        mode,
        f1,
        f2,
        ts2,
        filepath,
        context,
    );
    let h = build_head(user, domain, host);
    let m = build_mid(ts1, level);
    let a = build_angle(rule, mode, f1, f2, ts2);
    let t = build_tail(filepath, context);
    let bs = 1 + user.len() as int;
    let at = bs + 1 + domain.len();
    let close = at + 1 + host.len();
    let llen = level_seq(level).len() as int;
    let lp = close + 31 + llen;
    assert(h.len() == close + 1);
    assert(m.len() == 31 + llen);
    assert(a.len() == rule.len() + mode_seq(mode).len() + f1.len() + f2.len() + 26);
    assert(t.len() == 3 + filepath.len() + context.len());

    assert(s[0] == '[');
    assert forall|i: int| 1 <= i < bs implies s[i] == user[i - 1] by {}
    assert(s[bs] == '\\');
    assert forall|i: int| bs + 1 <= i < at implies s[i] == domain[i - (bs + 1)] by {}
    assert(s[at] == '@');
    assert forall|i: int| at + 1 <= i < close implies s[i] == host[i - (at + 1)] by {}
    assert(s[close] == ']');
    assert(s[close + 1] == ' ');
    assert(s.subrange(close + 2, close + 21) =~= ts1);
    assert(s[close + 21] == 'Z');
    assert(s[close + 22] == ' ');
    assert(s.subrange(close + 23, close + 29) =~= file_tag());
    assert(s[close + 29] == ' ');
    assert(s[close + 30] == '{');
    assert(s.subrange(close + 31, lp) =~= level_seq(level));
    assert(s[lp] == '}');
    assert(s[lp + 1] == '<');

    assert forall|k: int| 1 <= k < close implies s[k] != ']' by {
        if k < bs {
            assert(s[k] == user[k - 1]);
        } else if k == bs {
        } else if k < at {
            assert(s[k] == domain[k - (bs + 1)]);
        } else if k == at {
        } else {
            assert(s[k] == host[k - (at + 1)]);
        }
    }
    lemma_find_from_hit(s, 1, ']', close);
    assert forall|k: int| 1 <= k < bs implies s[k] != '\\' by {
        assert(s[k] == user[k - 1]);
    }
    lemma_find_from_hit(s, 1, '\\', bs);
    assert forall|k: int| bs + 1 <= k < at implies s[k] != '@' by {
        assert(s[k] == domain[k - (bs + 1)]);
    }
    lemma_find_from_hit(s, bs + 1, '@', at);
    assert(bracket_ok(s, close));

    lemma_match_at(s, close + 31, level_seq(TriageLevel::Green));
    lemma_match_at(s, close + 31, level_seq(TriageLevel::Yellow));
    lemma_match_at(s, close + 31, level_seq(TriageLevel::Red));
    lemma_match_at(s, close + 31, level_seq(TriageLevel::Black));
    assert(match_at(s, close + 31, level_seq(level)));
    assert(s[close + 31] == level_seq(level)[0]);
    assert(parse_level(s, close + 31) == Some(level));
    assert(ts_shape(s.subrange(close + 2, close + 21)));
    assert(match_at(s, close + 23, file_tag()));
}

/// The back of a built line parses as built: the bar scans land on the
/// built delimiters, and the last `") "` of the line is the filepath
/// delimiter.
#[verifier::spinoff_prover]
#[verifier::rlimit(100)]
proof fn lemma_round_trip_back(
    user: Seq<char>,
    domain: Seq<char>,
    host: Seq<char>,
    ts1: Seq<char>,
    level: TriageLevel,
    rule: Seq<char>,
    mode: AccessMode,
    f1: Seq<char>,
    f2: Seq<char>,
    ts2: Seq<char>,
    filepath: Seq<char>,
    context: Seq<char>,
)
    requires
        buildable(user, domain, host, ts1, rule, f1, f2, ts2, filepath, context),
    ensures
        ({
            let s = build_line_spec(
                user,
                domain,
                host,
                ts1,
                level,
                rule,
                mode,
                f1,
                f2,
                ts2,
                filepath,
                context,
            );
            let rs = 36 + user.len() as int + domain.len() + host.len() + level_seq(
                level,
            ).len();
            parse_angle_and_tail(s, level, rs) == Some(
                RecordView { triage_level: level, rule, filepath, match_context: context },
            )
        }),
{
    let s = build_line_spec(
        user,
        domain,
        host,
        ts1,
        level,
        rule,
        mode,
        f1,
        f2,
        ts2,
        filepath,
        context,
    );
    let h = build_head(user, domain, host);
    let m = build_mid(ts1, level);
    let a = build_angle(rule, mode, f1, f2, ts2);
    let t = build_tail(filepath, context);
    let close = 3 + user.len() as int + domain.len() + host.len();
    let llen = level_seq(level).len() as int;
    let rs = close + 33 + llen;
    let re = rs + rule.len();
    let mlen = mode_seq(mode).len() as int;
    let f1s = re + 2 + mlen;
    let f1e = f1s + f1.len();
    let f2e = f1e + 1 + f2.len();
    let t2 = f2e + 1;
    let fs = t2 + 22;
    let kk = fs + filepath.len();
    assert(h.len() == close + 1);
    assert(m.len() == 31 + llen);
    assert(a.len() == rule.len() + mlen + f1.len() + f2.len() + 26);
    assert(t.len() == 3 + filepath.len() + context.len());
    assert(s.len() == kk + 2 + context.len());

    assert forall|i: int| rs <= i < re implies s[i] == rule[i - rs] by {}
    assert(s[re] == '|');
    if mode == AccessMode::Read {
        assert(s[re + 1] == 'R');
        assert(s[re + 2] == '|');
    } else {
        assert(s[re + 1] == 'R');
        assert(s[re + 2] == 'W');
        assert(s[re + 3] == '|');
    }
    assert forall|i: int| f1s <= i < f1e implies s[i] == f1[i - f1s] by {}
    assert(s[f1e] == '|');
    assert forall|i: int| f1e + 1 <= i < f2e implies s[i] == f2[i - (f1e + 1)] by {}
    assert(s[f2e] == '|');
    assert(s.subrange(t2, t2 + 19) =~= ts2);
    assert(s[t2 + 19] == 'Z');
    assert(s[t2 + 20] == '>');
    assert(s[t2 + 21] == '(');
    assert(s.subrange(rs, re) =~= rule);
    assert(s.subrange(fs, kk) =~= filepath);
    assert(s[kk] == ')');
    assert(s[kk + 1] == ' ');
    assert(s.subrange(kk + 2, s.len() as int) =~= context);
    assert forall|i: int| kk + 2 <= i < s.len() implies s[i] == context[i - (kk + 2)] by {}

    assert forall|k: int| rs <= k < re implies s[k] != '|' by {
        assert(s[k] == rule[k - rs]);
    }
    lemma_find_from_hit(s, rs, '|', re);
    assert forall|k: int| f1s <= k < f1e implies s[k] != '|' by {
        assert(s[k] == f1[k - f1s]);
    }
    lemma_find_from_hit(s, f1s, '|', f1e);
    assert forall|k: int| f1e + 1 <= k < f2e implies s[k] != '|' by {
        assert(s[k] == f2[k - (f1e + 1)]);
    }
    lemma_find_from_hit(s, f1e + 1, '|', f2e);

    assert forall|mm: int| kk < mm <= s.len() - 2 implies !((#[trigger] s[mm]) == ')' && s[mm
        + 1] == ' ') by {
        if mm >= kk + 2 {
            assert(s[mm] == context[mm - (kk + 2)]);
            if s[mm] == ')' {
                assert(s[mm + 1] == context[mm + 1 - (kk + 2)]);
            }
        }
    }
    lemma_find_paren_hit(s, s.len() - 2, kk);
    assert(ts_shape(s.subrange(t2, t2 + 19)));
    lemma_eval_angle(s, level, rs, re, f1s, f1e, f2e, kk);
    assert(s.subrange(rs, re) == rule);
    assert(s.subrange(f2e + 23, kk) == filepath);
    assert(s.subrange(kk + 2, s.len() as int) == context);
}

/// The angle segment and tail evaluated on any line for which the scans
/// and shape checks are known to succeed at the given positions.
#[verifier::spinoff_prover]
#[verifier::rlimit(100)]
proof fn lemma_eval_angle(
    s: Seq<char>,
    level: TriageLevel,
    rs: int,
    re: int,
    f1s: int,
    f1e: int,
    f2e: int,
    kk: int,
)
    requires
        find_from(s, rs, '|') == Some(re),
        re >= rs,
        (f1s == re + 3 && re + 2 < s.len() && s[re + 1] == 'R' && s[re + 2] == '|') || (f1s == re
            + 4 && re + 3 < s.len() && s[re + 1] == 'R' && s[re + 2] == 'W' && s[re + 3] == '|'
            && !(s[re + 2] == '|')),
        find_from(s, f1s, '|') == Some(f1e),
        find_from(s, f1e + 1, '|') == Some(f2e),
        f2e >= f1e + 2,
        f2e + 22 < s.len(),
        ts_shape(s.subrange(f2e + 1, f2e + 20)),
        s[f2e + 20] == 'Z',
        s[f2e + 21] == '>',
        s[f2e + 22] == '(',
        find_paren_space(s, s.len() - 2) == Some(kk),
        f2e + 23 < kk,
    ensures
        parse_angle_and_tail(s, level, rs) == Some(
            RecordView {
                triage_level: level,
                rule: s.subrange(rs, re),
                filepath: s.subrange(f2e + 23, kk),
                match_context: s.subrange(kk + 2, s.len() as int),
            },
        ),
{
}

/// The whole grammar evaluated on any line whose front checks are known
/// to succeed and whose angle segment and tail are known to evaluate.
#[verifier::spinoff_prover]
#[verifier::rlimit(100)]
proof fn lemma_eval_line(s: Seq<char>, level: TriageLevel, close: int, rv: RecordView)
    requires
        s.len() >= 1,
        s[0] == '[',
        find_from(s, 1, ']') == Some(close),
        bracket_ok(s, close),
        close + 30 < s.len(),
        s[close + 1] == ' ',
        ts_shape(s.subrange(close + 2, close + 21)),
        s[close + 21] == 'Z',
        s[close + 22] == ' ',
        match_at(s, close + 23, file_tag()),
        s[close + 29] == ' ',
        s[close + 30] == '{',
        parse_level(s, close + 31) == Some(level),
        close + 31 + level_seq(level).len() + 1 < s.len(),
        s[close + 31 + level_seq(level).len()] == '}',
        s[close + 31 + level_seq(level).len() + 1] == '<',
        parse_angle_and_tail(s, level, close + 33 + level_seq(level).len()) == Some(rv),
    ensures
        parse_line_spec(s) == Some(rv),
{
}

/// Law: extraction round-trips. A line built from segments that satisfy
/// [`buildable`] matches the grammar, and re-extraction yields exactly
/// the four field values the line was built from.
#[verifier::spinoff_prover]
#[verifier::rlimit(100)]
pub proof fn lemma_extraction_round_trip(
    user: Seq<char>,
    domain: Seq<char>,
    host: Seq<char>,
    ts1: Seq<char>,
    level: TriageLevel,
    rule: Seq<char>,
    mode: AccessMode,
    f1: Seq<char>,
    f2: Seq<char>,
    ts2: Seq<char>,
    filepath: Seq<char>,
    context: Seq<char>,
)
    requires
        buildable(user, domain, host, ts1, rule, f1, f2, ts2, filepath, context),
    ensures
        parse_line_spec(
            build_line_spec(
                user,
                domain,
                host,
                ts1,
                level,
                rule,
                mode,
                f1,
                f2,
                ts2,
                filepath,
                context,
            ),
        ) == Some(
            RecordView { triage_level: level, rule, filepath, match_context: context },
        ),
{
    let s = build_line_spec(
        user,
        domain,
        host,
        ts1,
        level,
        rule,
        mode,
        f1,
        f2,
        ts2,
        filepath,
        context,
    );
    lemma_round_trip_front(
        user,
        domain,
        host,
        ts1,
        level,
        rule,
        mode,
        f1,
        f2,
        ts2,
        filepath,
        context,
    );
    lemma_round_trip_back(
        user,
        domain,
        host,
        ts1,
        level,
        rule,
        mode,
        f1,
        f2,
        ts2,
        filepath,
        context,
    );
    let close = 3 + user.len() as int + domain.len() + host.len();
    lemma_eval_line(
        s,
        level,
        close,
        RecordView { triage_level: level, rule, filepath, match_context: context },
    );
}

} // verus!
