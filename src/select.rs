//! Selectors: projecting each line to the key that takes part in the comparison.
use vstd::prelude::*;
use crate::edit::seqs_view;

verus! {

#[verifier::external_type_specification]
#[verifier::external_body]
pub struct ExRegex(regex::bytes::Regex);

#[verifier::external_type_specification]
#[verifier::external_body]
pub struct ExRegexSet(regex::bytes::RegexSet);

#[verifier::external_type_specification]
#[verifier::external_body]
pub struct ExRegexError(regex::Error);

/// A pattern compiled in multi-line mode (so that `$` also matches before
/// the newline that ends each line), with the text it was compiled from.
pub struct Pattern {
    re: regex::bytes::Regex,
    text: String,
}

impl Pattern {
    /// The text the pattern was compiled from.
    pub closed spec fn source(&self) -> Seq<char> {
        self.text@
    }
}

/// Several patterns compiled together as a set, with their texts.
pub struct PatternSet {
    set: regex::bytes::RegexSet,
    texts: Vec<String>,
}

/// The texts of some strings.
pub open spec fn strings_view(s: Seq<String>) -> Seq<Seq<char>> {
    s.map_values(|t: String| t@)
}

impl PatternSet {
    /// The texts the set was compiled from, in order.
    pub closed spec fn sources(&self) -> Seq<Seq<char>> {
        strings_view(self.texts@)
    }
}

/// Whether a pattern compiles in multi-line mode.
pub uninterp spec fn compiles(p: Seq<char>) -> bool;

/// Whether patterns compile together as a set in multi-line mode.
pub uninterp spec fn set_compiles(ps: Seq<Seq<char>>) -> bool;

/// The number of capture groups of a pattern, the whole match included.
pub uninterp spec fn group_count_of(p: Seq<char>) -> nat;

/// For the leftmost match of a pattern in a line, the span of each explicit
/// group (none for a group that took no part); none where nothing matches.
pub uninterp spec fn captures_of(p: Seq<char>, line: Seq<u8>) -> Option<Seq<Option<(usize, usize)>>>;

/// The successive non-overlapping matches of a pattern in a line.
pub uninterp spec fn matches_of(p: Seq<char>, line: Seq<u8>) -> Seq<(usize, usize)>;

/// The indices of the patterns of a set that match a line.
pub uninterp spec fn set_matches_of(ps: Seq<Seq<char>>, line: Seq<u8>) -> Seq<usize>;

/// Relies on `regex::bytes::RegexBuilder::new(p).multi_line(true).build()`:
/// whether it succeeds depends on the pattern alone.
#[verifier::external_body]
fn compile(pattern: &str) -> (r: Result<Pattern, regex::Error>)
    ensures
        r is Ok == compiles(pattern@),
        r matches Ok(c) ==> c.source() == pattern@,
{
    match regex::bytes::RegexBuilder::new(pattern).multi_line(true).build() {
        Ok(re) => Ok(Pattern { re, text: pattern.to_string() }),
        Err(e) => Err(e),
    }
}

/// Relies on `regex::bytes::RegexSetBuilder::new(ps).multi_line(true).build()`:
/// whether it succeeds depends on the patterns alone.
#[verifier::external_body]
fn compile_set(patterns: &Vec<String>) -> (r: Result<PatternSet, regex::Error>)
    ensures
        r is Ok == set_compiles(strings_view(patterns@)),
        r matches Ok(s) ==> s.sources() == strings_view(patterns@),
{
    match regex::bytes::RegexSetBuilder::new(patterns).multi_line(true).build() {
        Ok(set) => Ok(PatternSet { set, texts: patterns.clone() }),
        Err(e) => Err(e),
    }
}

/// Relies on the `Display` of `regex::Error` for a message to show.
#[verifier::external_body]
fn error_message(e: &regex::Error) -> (r: String) {
    e.to_string()
}

/// Relies on `regex::bytes::Regex::captures_len`: the count depends on the
/// pattern alone and includes the implicit group of the whole match, so it
/// is at least one.
#[verifier::external_body]
fn group_count(c: &Pattern) -> (r: usize)
    ensures
        r as nat == group_count_of(c.source()),
        r >= 1,
{
    c.re.captures_len()
}

/// Each span lies within a line of `len` bytes.
pub open spec fn spans_within(caps: Seq<Option<(usize, usize)>>, len: nat) -> bool {
    forall|i: int|
        0 <= i < caps.len() && (#[trigger] caps[i]).is_some() ==> caps[i].unwrap().0 <= caps[i].unwrap().1
            && caps[i].unwrap().1 <= len
}

/// Relies on `regex::bytes::Regex::captures`: for the leftmost match, the
/// span of each explicit group (1, 2, ...), or none for a group that took no
/// part; the result depends on the pattern and the line alone, and every
/// span lies within the line.
#[verifier::external_body]
fn capture_spans(c: &Pattern, line: &[u8]) -> (r: Option<Vec<Option<(usize, usize)>>>)
    ensures
        r is None == captures_of(c.source(), line@) is None,
        r matches Some(caps) ==> captures_of(c.source(), line@) == Some(caps@),
        r matches Some(caps) ==> spans_within(caps@, line@.len()),
{
    c.re.captures(line).map(|caps| (1..caps.len()).map(|i| caps.get(i).map(|m| (m.start(), m.end()))).collect())
}

/// The spans are in order, do not overlap, and lie within a line of `len` bytes.
pub open spec fn ordered_spans(spans: Seq<(usize, usize)>, len: nat) -> bool {
    &&& forall|i: int| 0 <= i < spans.len() ==> (#[trigger] spans[i]).0 <= spans[i].1 && spans[i].1 <= len
    &&& forall|i: int| 0 < i < spans.len() ==> spans[i - 1].1 <= (#[trigger] spans[i]).0
}

/// Relies on `regex::bytes::Regex::find_iter`: successive non-overlapping
/// matches, left to right, within the line; they depend on the pattern and
/// the line alone.
#[verifier::external_body]
fn match_spans(c: &Pattern, line: &[u8]) -> (r: Vec<(usize, usize)>)
    ensures
        r@ == matches_of(c.source(), line@),
        ordered_spans(r@, line@.len()),
{
    c.re.find_iter(line).map(|m| (m.start(), m.end())).collect()
}

/// Relies on `regex::bytes::RegexSet::matches`: the indices of the patterns
/// that match the line, in ascending order; they depend on the patterns and
/// the line alone.
#[verifier::external_body]
fn set_matches(s: &PatternSet, line: &[u8]) -> (r: Vec<usize>)
    ensures
        r@ == set_matches_of(s.sources(), line@),
        forall|i: int| 0 < i < r@.len() ==> r@[i - 1] < #[trigger] r@[i],
{
    s.set.matches(line).into_iter().collect()
}

/// The line with a newline added unless it already ends in one.
pub open spec fn with_newline(s: Seq<u8>) -> Seq<u8> {
    if s.len() == 0 || s.last() != 10u8 { s.push(10u8) } else { s }
}

/// The bytes taken from the captures so far, and the end of the last one
/// taken: a capture that starts left of that end lies within an earlier one
/// and is skipped.
pub open spec fn picked(line: Seq<u8>, caps: Seq<Option<(usize, usize)>>) -> (Seq<u8>, nat)
    decreases caps.len(),
{
    if caps.len() == 0 {
        (Seq::empty(), 0)
    } else {
        let (acc, idx) = picked(line, caps.drop_last());
        match caps.last() {
            None => (acc, idx),
            Some((s, e)) => if (s as nat) < idx {
                (acc, idx)
            } else {
                (acc + line.subrange(s as int, e as int), e as nat)
            },
        }
    }
}

/// The key of a matched line: its captured parts, outer ones only, ending in a newline.
pub open spec fn selected(line: Seq<u8>, caps: Seq<Option<(usize, usize)>>) -> Seq<u8> {
    with_newline(picked(line, caps).0)
}

/// Adds a newline unless the bytes end in one.
pub fn ensure_newline(v: &mut Vec<u8>)
    ensures
        final(v)@ == with_newline(old(v)@),
{
    let n = v.len();
    if n == 0 || v[n - 1] != 10u8 {
        v.push(10u8);
    }
}

/// Joins the captured parts of a line, skipping captures nested in earlier
/// ones, and ends the result with a newline.
pub fn select_captures(line: &[u8], caps: &Vec<Option<(usize, usize)>>) -> (r: Vec<u8>)
    requires
        spans_within(caps@, line@.len()),
    ensures
        r@ == selected(line@, caps@),
{
    let mut ret: Vec<u8> = Vec::new();
    let mut idx: usize = 0;
    let mut i: usize = 0;
    assert(caps@.take(0) =~= Seq::<Option<(usize, usize)>>::empty());
    while i < caps.len()
        invariant
            0 <= i <= caps@.len(),
            spans_within(caps@, line@.len()),
            (ret@, idx as nat) == picked(line@, caps@.take(i as int)),
        decreases caps@.len() - i,
    {
        assert(caps@.take(i as int + 1).drop_last() =~= caps@.take(i as int));
        match caps[i] {
            None => {},
            Some((s, e)) => {
                assert(caps@[i as int].is_some());
                if s >= idx {
                    let mut k: usize = s;
                    let ghost base = ret@;
                    while k < e
                        invariant
                            s <= k <= e <= line@.len(),
                            ret@ =~= base + line@.subrange(s as int, k as int),
                        decreases e - k,
                    {
                        ret.push(line[k]);
                        k = k + 1;
                    }
                    idx = e;
                }
            },
        }
        i = i + 1;
    }
    assert(caps@.take(i as int) =~= caps@);
    ensure_newline(&mut ret);
    ret
}

/// The end of the last span, zero for none.
pub open spec fn last_end(spans: Seq<(usize, usize)>) -> nat {
    if spans.len() == 0 { 0 } else { spans.last().1 as nat }
}

/// The bytes of the line up to the end of the last span, without the spans.
pub open spec fn kept_upto(line: Seq<u8>, spans: Seq<(usize, usize)>) -> Seq<u8>
    decreases spans.len(),
{
    if spans.len() == 0 {
        Seq::empty()
    } else {
        kept_upto(line, spans.drop_last()) + line.subrange(
            last_end(spans.drop_last()) as int,
            spans.last().0 as int,
        )
    }
}

/// The line with the spans deleted.
pub open spec fn without_spans(line: Seq<u8>, spans: Seq<(usize, usize)>) -> Seq<u8> {
    kept_upto(line, spans) + line.subrange(last_end(spans) as int, line.len() as int)
}

fn push_range(out: &mut Vec<u8>, line: &[u8], s: usize, e: usize)
    requires
        s <= e <= line@.len(),
    ensures
        final(out)@ == old(out)@ + line@.subrange(s as int, e as int),
{
    let mut k: usize = s;
    while k < e
        invariant
            s <= k <= e <= line@.len(),
            out@ =~= old(out)@ + line@.subrange(s as int, k as int),
        decreases e - k,
    {
        out.push(line[k]);
        k = k + 1;
    }
}

/// Deletes the spans from the line.
pub fn omit_spans(line: &[u8], spans: &Vec<(usize, usize)>) -> (r: Vec<u8>)
    requires
        ordered_spans(spans@, line@.len()),
    ensures
        r@ == without_spans(line@, spans@),
{
    let mut r: Vec<u8> = Vec::new();
    let mut pos: usize = 0;
    let mut i: usize = 0;
    assert(spans@.take(0) =~= Seq::<(usize, usize)>::empty());
    while i < spans.len()
        invariant
            0 <= i <= spans@.len(),
            ordered_spans(spans@, line@.len()),
            pos == last_end(spans@.take(i as int)),
            pos <= line@.len(),
            i < spans@.len() ==> pos <= spans@[i as int].0,
            r@ == kept_upto(line@, spans@.take(i as int)),
        decreases spans@.len() - i,
    {
        let (s, e) = spans[i];
        assert(spans@[i as int].0 <= spans@[i as int].1);
        assert(spans@.take(i as int + 1).drop_last() =~= spans@.take(i as int));
        push_range(&mut r, line, pos, s);
        pos = e;
        if i + 1 < spans.len() {
            assert(spans@[i as int + 1 - 1].1 <= spans@[i as int + 1].0);
        }
        i = i + 1;
    }
    assert(spans@.take(i as int) =~= spans@);
    push_range(&mut r, line, pos, line.len());
    r
}

/// Why a regular expression cannot serve as a selector.
pub enum SelectorError {
    /// The pattern does not compile.
    Compile { pattern: String, message: String },
    /// The patterns do not compile together as a set.
    SetCompile { message: String },
    /// The pattern has no capturing group to select with.
    NoCaptureGroup { pattern: String },
}

/// A line matched by more than one of the selector's patterns.
pub struct Ambiguity {
    pub line: Vec<u8>,
}

/// The comparison-key projection: capture patterns, tried together as a set
/// when there are several, and a pattern whose matches are deleted.
pub struct Selector {
    regexes: Vec<Pattern>,
    set: Option<PatternSet>,
    ignore: Option<Pattern>,
}

impl Selector {
    /// The capture patterns, in order.
    pub closed spec fn patterns(&self) -> Seq<Seq<char>> {
        self.regexes@.map_values(|c: Pattern| c.source())
    }

    /// The pattern whose matches are deleted, if any.
    pub closed spec fn ignore_pattern(&self) -> Option<Seq<char>> {
        match self.ignore {
            None => None,
            Some(c) => Some(c.source()),
        }
    }

    /// The set is there exactly when there are several capture patterns, and holds them.
    pub closed spec fn wf(&self) -> bool {
        &&& self.set.is_some() == (self.regexes@.len() >= 2)
        &&& self.set matches Some(s) ==> s.sources() == self.patterns()
    }
}

/// The captures that decide a line's key: those of the single pattern, or,
/// of several, those of the one pattern that the set finds matching; none
/// where no pattern (or more than one) matches.
pub open spec fn chosen_captures(ps: Seq<Seq<char>>, line: Seq<u8>) -> Option<Seq<Option<(usize, usize)>>> {
    if ps.len() == 0 {
        None
    } else if ps.len() == 1 {
        captures_of(ps[0], line)
    } else {
        let ids = set_matches_of(ps, line);
        if ids.len() == 1 && (ids[0] as int) < ps.len() {
            captures_of(ps[ids[0] as int], line)
        } else {
            None
        }
    }
}

/// A line that two or more of several patterns match.
pub open spec fn ambiguous(ps: Seq<Seq<char>>, line: Seq<u8>) -> bool {
    ps.len() >= 2 && set_matches_of(ps, line).len() >= 2
}

/// The key of a line: the selected captures of the deciding pattern (the
/// line itself where none decides), with the ignore pattern's matches deleted.
pub open spec fn key_of(ps: Seq<Seq<char>>, ignore: Option<Seq<char>>, line: Seq<u8>) -> Seq<u8> {
    let base = match chosen_captures(ps, line) {
        None => line,
        Some(c) => selected(line, c),
    };
    match ignore {
        None => base,
        Some(q) => without_spans(base, matches_of(q, base)),
    }
}

/// The keys of all lines.
pub open spec fn keys_of(ps: Seq<Seq<char>>, ignore: Option<Seq<char>>, lines: Seq<Seq<u8>>) -> Seq<Seq<u8>> {
    Seq::new(lines.len(), |i: int| key_of(ps, ignore, lines[i]))
}

fn compile_capturing(pattern: &String) -> (r: Result<Pattern, SelectorError>)
    ensures
        r is Ok == (compiles(pattern@) && group_count_of(pattern@) >= 2),
        r matches Ok(c) ==> c.source() == pattern@,
        r matches Err(SelectorError::NoCaptureGroup { pattern: p }) ==> p@ == pattern@ && compiles(pattern@)
            && group_count_of(pattern@) < 2,
        r matches Err(SelectorError::Compile { pattern: p, message: _ }) ==> p@ == pattern@ && !compiles(pattern@),
        !(r matches Err(SelectorError::SetCompile { .. })),
{
    match compile(pattern.as_str()) {
        Ok(re) => {
            if group_count(&re) <= 1 {
                Err(SelectorError::NoCaptureGroup { pattern: pattern.clone() })
            } else {
                Ok(re)
            }
        },
        Err(e) => Err(SelectorError::Compile { pattern: pattern.clone(), message: error_message(&e) }),
    }
}

/// Every capture pattern compiles and has a capturing group.
pub open spec fn all_capturing(ps: Seq<Seq<char>>) -> bool {
    forall|i: int| 0 <= i < ps.len() ==> compiles(#[trigger] ps[i]) && group_count_of(ps[i]) >= 2
}

/// The text of an optional pattern.
pub open spec fn str_opt_view(o: Option<&str>) -> Option<Seq<char>> {
    match o {
        None => None,
        Some(q) => Some(q@),
    }
}

/// Compiles the capture patterns and the ignore pattern. Every capture
/// pattern must compile and have a capturing group; several must also
/// compile together as a set; the ignore pattern must compile.
pub fn build_selector(res: &Vec<String>, ignore: Option<&str>) -> (r: Result<Selector, SelectorError>)
    ensures
        r is Ok == (all_capturing(strings_view(res@)) && (res@.len() >= 2 ==> set_compiles(strings_view(res@)))
            && (ignore matches Some(q) ==> compiles(q@))),
        r matches Ok(sel) ==> sel.wf() && sel.patterns() == strings_view(res@) && sel.ignore_pattern()
            == str_opt_view(ignore),
        r matches Err(SelectorError::NoCaptureGroup { pattern: p }) ==> compiles(p@) && group_count_of(p@) < 2
            && exists|i: int| 0 <= i < res@.len() && p@ == (#[trigger] res@[i])@,
        r matches Err(SelectorError::Compile { pattern: p, message: _ }) ==> !compiles(p@) && ((exists|i: int|
            0 <= i < res@.len() && p@ == (#[trigger] res@[i])@) || (ignore matches Some(q) && p@ == q@)),
        r matches Err(SelectorError::SetCompile { .. }) ==> res@.len() >= 2 && !set_compiles(strings_view(res@)),
{
    let ghost ps = strings_view(res@);
    let mut regexes: Vec<Pattern> = Vec::new();
    let mut i: usize = 0;
    while i < res.len()
        invariant
            0 <= i <= res@.len(),
            ps == strings_view(res@),
            regexes@.len() == i,
            forall|j: int| 0 <= j < i ==> (#[trigger] regexes@[j]).source() == ps[j],
            forall|j: int| 0 <= j < i ==> compiles(#[trigger] ps[j]) && group_count_of(ps[j]) >= 2,
        decreases res@.len() - i,
    {
        match compile_capturing(&res[i]) {
            Ok(re) => regexes.push(re),
            Err(e) => {
                assert(ps[i as int] == res@[i as int]@);
                assert(!(compiles(ps[i as int]) && group_count_of(ps[i as int]) >= 2));
                return Err(e);
            },
        }
        i = i + 1;
    }
    assert(all_capturing(ps));
    assert(regexes@.map_values(|c: Pattern| c.source()) =~= ps);
    let set = if res.len() >= 2 {
        match compile_set(res) {
            Ok(s) => Some(s),
            Err(e) => {
                return Err(SelectorError::SetCompile { message: error_message(&e) });
            },
        }
    } else {
        None
    };
    let ignore_re = match ignore {
        None => None,
        Some(p) => match compile(p) {
            Ok(re) => Some(re),
            Err(e) => {
                return Err(SelectorError::Compile { pattern: p.to_owned(), message: error_message(&e) });
            },
        },
    };
    Ok(Selector { regexes, set, ignore: ignore_re })
}

/// Copies the bytes.
fn copy_bytes(line: &[u8]) -> (r: Vec<u8>)
    ensures
        r@ == line@,
{
    let mut r: Vec<u8> = Vec::new();
    push_range(&mut r, line, 0, line.len());
    assert(line@.subrange(0, line@.len() as int) =~= line@);
    r
}

/// Which pattern decides a line, given the ascending indices of the set's
/// patterns that match it among `n` patterns: none when none matches (or the
/// index is out of range), the one when exactly one does, an error when several do.
pub fn matched_pattern(ids: &Vec<usize>, n: usize) -> (r: Result<Option<usize>, ()>)
    ensures
        ids@.len() == 0 ==> r == Ok::<Option<usize>, ()>(None),
        ids@.len() == 1 && ids@[0] < n ==> r == Ok::<Option<usize>, ()>(Some(ids@[0])),
        ids@.len() == 1 && ids@[0] >= n ==> r == Ok::<Option<usize>, ()>(None),
        ids@.len() >= 2 ==> r is Err,
{
    if ids.len() == 0 {
        Ok(None)
    } else if ids.len() == 1 {
        if ids[0] < n {
            Ok(Some(ids[0]))
        } else {
            Ok(None)
        }
    } else {
        Err(())
    }
}

impl Selector {
    /// The key of a line: the captured parts of the one pattern that matches
    /// it (the line itself where none does), with the ignore pattern's
    /// matches deleted. A line that several patterns match is an error.
    pub fn project(&self, line: &[u8]) -> (r: Result<Vec<u8>, Ambiguity>)
        requires
            self.wf(),
        ensures
            r is Err == ambiguous(self.patterns(), line@),
            r matches Ok(k) ==> k@ == key_of(self.patterns(), self.ignore_pattern(), line@),
            r matches Err(a) ==> a.line@ == line@,
    {
        let ghost ps = self.patterns();
        let caps = if self.regexes.len() == 1 {
            capture_spans(&self.regexes[0], line)
        } else if self.regexes.len() == 0 {
            None
        } else {
            match &self.set {
                None => None,
                Some(set) => {
                    let ids = set_matches(set, line);
                    match matched_pattern(&ids, self.regexes.len()) {
                        Ok(None) => None,
                        Ok(Some(k)) => capture_spans(&self.regexes[k], line),
                        Err(()) => {
                            return Err(Ambiguity { line: copy_bytes(line) });
                        },
                    }
                },
            }
        };
        assert(match caps {
            None => chosen_captures(ps, line@) is None,
            Some(c) => chosen_captures(ps, line@) == Some(c@),
        });
        let base = match caps {
            None => copy_bytes(line),
            Some(c) => select_captures(line, &c),
        };
        match &self.ignore {
            None => Ok(base),
            Some(re) => {
                let spans = match_spans(re, base.as_slice());
                Ok(omit_spans(base.as_slice(), &spans))
            },
        }
    }

    /// The keys of all lines; the first line that several patterns match is an error.
    pub fn pick_lines(&self, lines: &Vec<Vec<u8>>) -> (r: Result<Vec<Vec<u8>>, Ambiguity>)
        requires
            self.wf(),
        ensures
            r is Err == exists|i: int| 0 <= i < lines@.len() && ambiguous(self.patterns(), #[trigger] lines@[i]@),
            r matches Ok(keys) ==> seqs_view(keys@) == keys_of(self.patterns(), self.ignore_pattern(), seqs_view(lines@)),
            r matches Err(a) ==> exists|i: int| 0 <= i < lines@.len() && a.line@ == (#[trigger] lines@[i])@
                && ambiguous(self.patterns(), lines@[i]@),
    {
        let ghost ps = self.patterns();
        let ghost ig = self.ignore_pattern();
        let mut keys: Vec<Vec<u8>> = Vec::new();
        let mut i: usize = 0;
        while i < lines.len()
            invariant
                self.wf(),
                ps == self.patterns(),
                ig == self.ignore_pattern(),
                0 <= i <= lines@.len(),
                keys@.len() == i,
                forall|j: int| 0 <= j < i ==> !ambiguous(ps, #[trigger] lines@[j]@),
                forall|j: int| 0 <= j < i ==> (#[trigger] keys@[j])@ == key_of(ps, ig, lines@[j]@),
            decreases lines@.len() - i,
        {
            match self.project(lines[i].as_slice()) {
                Ok(k) => keys.push(k),
                Err(e) => {
                    return Err(e);
                },
            }
            i = i + 1;
        }
        assert(seqs_view(keys@) =~= keys_of(ps, ig, seqs_view(lines@)));
        Ok(keys)
    }
}

/// Completing a key with a newline twice gives what completing it once gives.
pub proof fn lemma_with_newline_idempotent(s: Seq<u8>)
    ensures
        with_newline(with_newline(s)) == with_newline(s),
{
    if s.len() == 0 || s.last() != 10u8 {
        assert(s.push(10u8).last() == 10u8);
    }
}

} // verus!
