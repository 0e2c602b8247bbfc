//! Header entries and the header collection: parsing one line into a
//! named value, parsing the header section of a raw request, name-based
//! lookup, and required-header validation.

use vstd::prelude::*;

use crate::text::{
    contains_str, count_char, first_match, has_substring, lemma_count_char_zero, lemma_first_match,
    lemma_single_char_occurrence, lemma_split_on_count, lemma_split_on_nonempty, matches_at,
    split_at_first, split_on, split_str, str_eq, strip_leading, trim_leading, views_of,
};

verus! {

/// The separator between sub-values of one header value.
pub open spec fn semicolon() -> Seq<char> {
    seq![';']
}

/// The separator between a header name and its value.
pub open spec fn colon_space() -> Seq<char> {
    seq![':', ' ']
}

/// The line terminator of the raw request buffer.
pub open spec fn crlf() -> Seq<char> {
    seq!['\r', '\n']
}

/// How parsing or validation of a request can fail: a header line without
/// the name/value separator, or a required header that is missing or has
/// an unacceptable value.
#[derive(Debug, Clone, Copy, PartialEq, Eq, Structural)]
pub enum ParseError {
    MalformedHeader,
    InvalidHeaders,
}

/// One header's value: a single scalar, or the ordered sub-values of a
/// `;`-separated value. A value with fewer than two sub-values is always
/// `Single`; the text is borrowed from the request buffer.
#[derive(Debug)]
pub enum Value<'buf> {
    Single(&'buf str),
    Multiple(Vec<&'buf str>),
}

impl<'buf> Value<'buf> {
    /// The sub-values, in their order of appearance.
    pub open spec fn parts(self) -> Seq<Seq<char>> {
        match self {
            Value::Single(s) => seq![s@],
            Value::Multiple(vs) => views_of(vs@),
        }
    }

    /// `Multiple` never holds fewer than two sub-values.
    pub open spec fn well_formed(self) -> bool {
        self matches Value::Multiple(vs) ==> vs@.len() >= 2
    }

    /// Some sub-value has `exp` as a substring.
    pub open spec fn spec_contains(self, exp: Seq<char>) -> bool {
        exists|k: int| 0 <= k < self.parts().len() && has_substring(#[trigger] self.parts()[k], exp)
    }

    /// Whether this value contains `exp_value`: for a single scalar, as a
    /// substring of it; for sub-values, as a substring of any of them.
    pub fn contains(&self, exp_value: &str) -> (r: bool)
        ensures
            r == self.spec_contains(exp_value@),
    {
        match self {
            Value::Single(v) => {
                let r = contains_str(v, exp_value);
                proof {
                    assert(self.parts()[0] == v@);
                }
                r
            },
            Value::Multiple(vs) => {
                let n = vs.len();
                let mut k: usize = 0;
                while k < n
                    invariant
                        k <= n,
                        n == vs@.len(),
                        self.parts() == views_of(vs@),
                        forall|j: int| 0 <= j < k ==> !has_substring(#[trigger] vs@[j]@, exp_value@),
                    decreases n - k,
                {
                    if contains_str(vs[k], exp_value) {
                        proof {
                            assert(self.parts()[k as int] == vs@[k as int]@);
                        }
                        return true;
                    }
                    k += 1;
                }
                proof {
                    assert forall|j: int| 0 <= j < self.parts().len() implies !has_substring(
                        #[trigger] self.parts()[j],
                        exp_value@,
                    ) by {
                        assert(self.parts()[j] == vs@[j]@);
                    }
                }
                false
            },
        }
    }
}

/// Builds the value of one header from its raw value text: the text is
/// split on `;`; a single piece stays a scalar, two or more pieces become
/// an ordered list of sub-values, untrimmed.
pub fn parse_value<'buf>(raw: &'buf str) -> (v: Value<'buf>)
    ensures
        v.parts() == split_on(raw@, semicolon()),
        v.well_formed(),
        v is Single <==> !has_substring(raw@, semicolon()),
{
    proof {
        reveal_strlit(";");
        assert(";"@ =~= semicolon());
        lemma_first_match(raw@, semicolon());
        lemma_split_on_nonempty(raw@, semicolon());
        let fm = first_match(raw@, semicolon());
        if fm < raw@.len() {
            lemma_split_on_nonempty(
                raw@.subrange(fm + semicolon().len(), raw@.len() as int),
                semicolon(),
            );
        }
    }
    let parts = split_str(raw, ";");
    if parts.len() == 1 {
        let v = Value::Single(parts[0]);
        proof {
            assert(v.parts() =~= views_of(parts@));
        }
        v
    } else {
        Value::Multiple(parts)
    }
}

/// One header entry: a name associated with exactly one value, built from
/// exactly one raw header line.
#[derive(Debug)]
pub struct Header<'buf> {
    pub name: &'buf str,
    pub value: Value<'buf>,
}

/// The name of the entry a header line yields: the text before the first
/// `": "`, with any stray leading line-feed characters removed.
pub open spec fn spec_header_name(line: Seq<char>) -> Seq<char> {
    strip_leading(line.subrange(0, first_match(line, colon_space())), '\n')
}

/// The sub-values of the entry a header line yields: the text after the
/// first `": "`, split on `;`.
pub open spec fn spec_header_parts(line: Seq<char>) -> Seq<Seq<char>> {
    split_on(
        line.subrange(first_match(line, colon_space()) + colon_space().len(), line.len() as int),
        semicolon(),
    )
}

impl<'buf> Header<'buf> {
    /// The entry is built from some line and `Multiple` holds at least two
    /// sub-values.
    pub open spec fn well_formed(self) -> bool {
        self.value.well_formed()
    }

    /// Builds one entry from one raw header line (without its terminator):
    /// the line is split at the first `": "` into name and raw value; a
    /// line without `": "` is malformed.
    pub fn from_line(line: &'buf str) -> (r: Result<Header<'buf>, ParseError>)
        ensures
            match r {
                Ok(h) => has_substring(line@, colon_space()) && h.name@ == spec_header_name(line@)
                    && h.value.parts() == spec_header_parts(line@) && h.well_formed(),
                Err(e) => e == ParseError::MalformedHeader && !has_substring(line@, colon_space()),
            },
    {
        proof {
            reveal_strlit(": ");
            assert(": "@ =~= colon_space());
        }
        match split_at_first(line, ": ") {
            None => Err(ParseError::MalformedHeader),
            Some(pair) => {
                let name = trim_leading(pair.0, '\n');
                let value = parse_value(pair.1);
                Ok(Header { name, value })
            },
        }
    }
}

/// Every well-formed value contains the empty string: the empty substring
/// occurs in every sub-value, and a value always has at least one.
pub proof fn lemma_contains_empty<'buf>(v: Value<'buf>)
    requires
        v.well_formed(),
    ensures
        v.spec_contains(Seq::<char>::empty()),
{
    assert(v.parts().len() >= 1);
    assert(v.parts()[0].subrange(0, 0) =~= Seq::<char>::empty());
    assert(matches_at(v.parts()[0], Seq::<char>::empty(), 0));
    assert(has_substring(v.parts()[0], Seq::<char>::empty()));
}

/// A raw value yields one more sub-value than it has `;` separators.
pub proof fn lemma_value_count(raw: Seq<char>)
    ensures
        split_on(raw, semicolon()).len() == count_char(raw, ';') + 1,
{
    lemma_split_on_count(raw, ';');
    assert(seq![';'] =~= semicolon());
}

/// A raw value is split into a single scalar exactly when it has no `;`
/// separator.
pub proof fn lemma_value_scalar(raw: Seq<char>)
    ensures
        !has_substring(raw, semicolon()) <==> count_char(raw, ';') == 0,
{
    lemma_single_char_occurrence(raw, ';');
    lemma_count_char_zero(raw, ';');
    assert(seq![';'] =~= semicolon());
}

/// The outcome of validation does not depend on the order of the rules:
/// two rule lists that hold the same rules (in any order, with any
/// multiplicity) are satisfied by the same collections.
pub proof fn lemma_validation_order_independent<'buf>(
    entries: Seq<Header<'buf>>,
    rules1: Seq<(Seq<char>, Seq<char>)>,
    rules2: Seq<(Seq<char>, Seq<char>)>,
)
    requires
        forall|x: (Seq<char>, Seq<char>)| rules1.contains(x) <==> rules2.contains(x),
    ensures
        all_rules_satisfied(entries, rules1) == all_rules_satisfied(entries, rules2),
{
    assert forall|ra: Seq<(Seq<char>, Seq<char>)>, rb: Seq<(Seq<char>, Seq<char>)>|
        ((forall|x: (Seq<char>, Seq<char>)| ra.contains(x) ==> rb.contains(x))
            && all_rules_satisfied(entries, rb)) implies all_rules_satisfied(entries, ra) by {
        assert forall|k: int| 0 <= k < ra.len() implies rule_satisfied(
            entries,
            (#[trigger] ra[k]).0,
            ra[k].1,
        ) by {
            assert(ra.contains(ra[k]));
            assert(rb.contains(ra[k]));
            let j = choose|j: int| 0 <= j < rb.len() && rb[j] == ra[k];
            assert(rule_satisfied(entries, (rb[j]).0, rb[j].1));
        }
    }
}

/// A line of the raw buffer that parses as a header: it holds the
/// name/value separator `": "`.
pub open spec fn line_is_header(line: Seq<char>) -> bool {
    has_substring(line, colon_space())
}

/// How many leading lines of the raw buffer parse as headers: the index
/// of the first line without `": "`, or the number of lines when every
/// line has it.
pub open spec fn header_line_count(lines: Seq<Seq<char>>) -> int
    decreases lines.len(),
{
    if lines.len() == 0 {
        0
    } else if !line_is_header(lines[0]) {
        0
    } else {
        1 + header_line_count(lines.subrange(1, lines.len() as int))
    }
}

/// `header_line_count` is the unique boundary: every line before it is a
/// header line and the line at it, if any, is not.
pub proof fn lemma_header_line_count_is(lines: Seq<Seq<char>>, k: int)
    requires
        0 <= k <= lines.len(),
        forall|j: int| 0 <= j < k ==> line_is_header(#[trigger] lines[j]),
        k < lines.len() ==> !line_is_header(lines[k]),
    ensures
        header_line_count(lines) == k,
    decreases lines.len(),
{
    if k == 0 {
    } else {
        let t = lines.subrange(1, lines.len() as int);
        assert forall|j: int| 0 <= j < k - 1 implies line_is_header(#[trigger] t[j]) by {
            assert(t[j] == lines[j + 1]);
        }
        lemma_header_line_count_is(t, k - 1);
    }
}

/// An ordered collection of header entries, in their order of appearance
/// in the raw request buffer; two lines with the same name yield two
/// separate entries.
#[derive(Debug)]
pub struct Headers<'buf> {
    pub headers: Vec<Header<'buf>>,
}

/// `entries[i]` is the first entry named `name`: it carries that name and
/// no earlier entry does.
pub open spec fn is_first_named<'buf>(entries: Seq<Header<'buf>>, name: Seq<char>, i: int) -> bool {
    0 <= i < entries.len() && entries[i].name@ == name && (forall|j: int|
        0 <= j < i ==> (#[trigger] entries[j]).name@ != name)
}

/// At most one index is the first occurrence of a name.
pub proof fn lemma_first_named_unique<'buf>(
    entries: Seq<Header<'buf>>,
    name: Seq<char>,
    i1: int,
    i2: int,
)
    requires
        is_first_named(entries, name, i1),
        is_first_named(entries, name, i2),
    ensures
        i1 == i2,
{
}

/// The first entry named `name` exists and its value contains `exp` as a
/// substring of some sub-value.
pub open spec fn rule_satisfied<'buf>(
    entries: Seq<Header<'buf>>,
    name: Seq<char>,
    exp: Seq<char>,
) -> bool {
    exists|i: int|
        #[trigger] is_first_named(entries, name, i) && entries[i].value.spec_contains(exp)
}

/// Every rule of `rules` is satisfied by `entries`.
pub open spec fn all_rules_satisfied<'buf>(
    entries: Seq<Header<'buf>>,
    rules: Seq<(Seq<char>, Seq<char>)>,
) -> bool {
    forall|k: int|
        0 <= k < rules.len() ==> rule_satisfied(entries, (#[trigger] rules[k]).0, rules[k].1)
}

/// The rules a borrowed rule list stands for.
pub open spec fn rule_views(rules: Seq<(&str, &str)>) -> Seq<(Seq<char>, Seq<char>)> {
    rules.map_values(|r: (&str, &str)| (r.0@, r.1@))
}

impl<'buf> Headers<'buf> {
    /// The entries, in their order of appearance.
    pub open spec fn entries(self) -> Seq<Header<'buf>> {
        self.headers@
    }

    /// Every entry is well formed.
    pub open spec fn well_formed(self) -> bool {
        forall|i: int| 0 <= i < self.entries().len() ==> (#[trigger] self.entries()[i]).well_formed()
    }

    /// Builds the collection from a raw request buffer: the buffer is
    /// split on CR LF, and lines are consumed while each holds `": "`.
    /// Consumption normally stops at the empty line separating headers
    /// from body (or at the end of the buffer); stopping at a non-empty
    /// line means a malformed header line, and parsing fails rather than
    /// passing over it silently.
    pub fn from_request(request: &'buf str) -> (r: Result<Headers<'buf>, ParseError>)
        ensures
            ({
                let lines = split_on(request@, crlf());
                let k = header_line_count(lines);
                match r {
                    Ok(hs) => (k == lines.len() || lines[k].len() == 0) && hs.entries().len() == k
                        && hs.well_formed() && (forall|i: int|
                        0 <= i < k ==> (#[trigger] hs.entries()[i]).name@ == spec_header_name(
                            lines[i],
                        ) && hs.entries()[i].value.parts() == spec_header_parts(lines[i])),
                    Err(e) => e == ParseError::MalformedHeader && k < lines.len() && lines[k].len()
                        != 0,
                }
            }),
    {
        proof {
            reveal_strlit("\r\n");
            assert("\r\n"@ =~= crlf());
        }
        let lines = split_str(request, "\r\n");
        let ghost spec_lines = split_on(request@, crlf());
        let n = lines.len();
        let mut out: Vec<Header<'buf>> = Vec::new();
        let mut i: usize = 0;
        while i < n
            invariant
                n == lines@.len(),
                i <= n,
                views_of(lines@) == spec_lines,
                spec_lines == split_on(request@, crlf()),
                out@.len() == i,
                forall|j: int| 0 <= j < i ==> line_is_header(#[trigger] spec_lines[j]),
                forall|j: int|
                    0 <= j < i ==> (#[trigger] out@[j]).name@ == spec_header_name(spec_lines[j])
                        && out@[j].value.parts() == spec_header_parts(spec_lines[j])
                        && out@[j].well_formed(),
            decreases n - i,
        {
            let line: &str = lines[i];
            proof {
                assert(line@ == spec_lines[i as int]);
            }
            match Header::from_line(line) {
                Ok(h) => {
                    out.push(h);
                    i += 1;
                },
                Err(_) => {
                    if line.unicode_len() == 0 {
                        proof {
                            lemma_header_line_count_is(spec_lines, i as int);
                        }
                        return Ok(Headers { headers: out });
                    } else {
                        proof {
                            lemma_header_line_count_is(spec_lines, i as int);
                        }
                        return Err(ParseError::MalformedHeader);
                    }
                },
            }
        }
        proof {
            lemma_header_line_count_is(spec_lines, n as int);
        }
        Ok(Headers { headers: out })
    }

    /// The first entry (in stored order) whose name equals `name` under
    /// exact, case-sensitive comparison, or nothing when no entry matches.
    pub fn get_header_by_name(&self, name: &str) -> (r: Option<&Header<'buf>>)
        ensures
            match r {
                Some(h) => exists|i: int|
                    #[trigger] is_first_named(self.entries(), name@, i) && *h == self.entries()[i],
                None => forall|i: int|
                    0 <= i < self.entries().len() ==> (#[trigger] self.entries()[i]).name@ != name@,
            },
    {
        let n = self.headers.len();
        let mut i: usize = 0;
        while i < n
            invariant
                n == self.headers@.len(),
                i <= n,
                forall|j: int| 0 <= j < i ==> (#[trigger] self.headers@[j]).name@ != name@,
            decreases n - i,
        {
            let h = &self.headers[i];
            if str_eq(h.name, name) {
                proof {
                    assert(is_first_named(self.entries(), name@, i as int));
                }
                return Some(h);
            }
            i += 1;
        }
        None
    }

    /// Validates the caller-supplied required-header rules, in order: a
    /// rule passes when its header is present (by first occurrence) and
    /// that header's value contains the rule's expected substring; the
    /// first failing rule stops validation with `InvalidHeaders`.
    pub fn validate_required_headers(&self, required: &Vec<(&str, &str)>) -> (r: Result<
        (),
        ParseError,
    >)
        ensures
            r is Ok <==> all_rules_satisfied(self.entries(), rule_views(required@)),
            match r {
                Ok(()) => true,
                Err(e) => e == ParseError::InvalidHeaders && (exists|k: int|
                    0 <= k < required@.len() && !rule_satisfied(
                        self.entries(),
                        (#[trigger] required@[k]).0@,
                        required@[k].1@,
                    ) && (forall|j: int|
                        0 <= j < k ==> rule_satisfied(
                            self.entries(),
                            (#[trigger] required@[j]).0@,
                            required@[j].1@,
                        ))),
            },
    {
        let n = required.len();
        let mut k: usize = 0;
        while k < n
            invariant
                n == required@.len(),
                k <= n,
                forall|j: int|
                    0 <= j < k ==> rule_satisfied(
                        self.entries(),
                        (#[trigger] required@[j]).0@,
                        required@[j].1@,
                    ),
            decreases n - k,
        {
            let rule = required[k];
            match self.get_header_by_name(rule.0) {
                Some(h) => {
                    if h.value.contains(rule.1) {
                        proof {
                            let i = choose|i: int|
                                #[trigger] is_first_named(self.entries(), rule.0@, i) && *h
                                    == self.entries()[i];
                            assert(rule_satisfied(self.entries(), rule.0@, rule.1@));
                        }
                        k += 1;
                    } else {
                        proof {
                            let i = choose|i: int|
                                #[trigger] is_first_named(self.entries(), rule.0@, i) && *h
                                    == self.entries()[i];
                            assert forall|i2: int| !(#[trigger] is_first_named(
                                self.entries(),
                                rule.0@,
                                i2,
                            ) && self.entries()[i2].value.spec_contains(rule.1@)) by {
                                if is_first_named(self.entries(), rule.0@, i2) {
                                    lemma_first_named_unique(self.entries(), rule.0@, i, i2);
                                }
                            }
                            assert((rule_views(required@)[k as int]) == (rule.0@, rule.1@));
                        }
                        return Err(ParseError::InvalidHeaders);
                    }
                },
                None => {
                    proof {
                        assert forall|i2: int| !(#[trigger] is_first_named(
                            self.entries(),
                            rule.0@,
                            i2,
                        ) && self.entries()[i2].value.spec_contains(rule.1@)) by {}
                        assert((rule_views(required@)[k as int]) == (rule.0@, rule.1@));
                    }
                    return Err(ParseError::InvalidHeaders);
                },
            }
        }
        proof {
            assert forall|j: int| 0 <= j < rule_views(required@).len() implies rule_satisfied(
                self.entries(),
                (#[trigger] rule_views(required@)[j]).0,
                rule_views(required@)[j].1,
            ) by {
                assert((rule_views(required@)[j]) == (required@[j].0@, required@[j].1@));
            }
        }
        Ok(())
    }
}

} // verus!
