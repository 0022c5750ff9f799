//! The semantic pass: turns the parse tree into headers, body and validated
//! addresses, and reports the first fault it meets.
use vstd::prelude::*;
use vstd::string::*;
use crate::grammar::{
    address_in, blank_line_at, chars_of, headers_from, lemma_body_after_first_blank_line,
    lemma_tree_spans, match_message, message_tree, newline_len, stop_text, valid_address,
    HeaderLine, HeaderSpan,
};

verus! {

/// A parsed message.
#[derive(Debug)]
pub struct ParsedEmail {
    /// The headers as `(name, value)` pairs, in source order.
    pub headers: Vec<(String, String)>,
    /// The text after the blank separator line, verbatim.
    pub body: String,
    /// The values of the `From` and `To` headers, in source order.
    pub email_addresses: Vec<String>,
}

/// Why a message was rejected.
#[derive(Debug)]
pub enum EmailParseError {
    /// The input does not match the message grammar; the text describes where.
    ParseError(String),
    /// A `From` or `To` value is not an address.
    InvalidEmailAddress(String),
    /// A header pairs an empty name with a value or a name with an empty
    /// value, or the message lacks a `From` or a `To` address.
    MissingField(String),
}

/// The value of a [`ParsedEmail`].
pub struct EmailModel {
    pub headers: Seq<(Seq<char>, Seq<char>)>,
    pub body: Seq<char>,
    pub email_addresses: Seq<Seq<char>>,
}

/// The value of an [`EmailParseError`].
pub enum ErrorModel {
    Syntax(Seq<char>),
    InvalidAddress(Seq<char>),
    Missing(Seq<char>),
}

impl View for ParsedEmail {
    type V = EmailModel;

    open spec fn view(&self) -> EmailModel {
        EmailModel {
            headers: self.headers@.map_values(|p: (String, String)| (p.0@, p.1@)),
            body: self.body@,
            email_addresses: self.email_addresses@.map_values(|a: String| a@),
        }
    }
}

impl View for EmailParseError {
    type V = ErrorModel;

    open spec fn view(&self) -> ErrorModel {
        match self {
            EmailParseError::ParseError(d) => ErrorModel::Syntax(d@),
            EmailParseError::InvalidEmailAddress(v) => ErrorModel::InvalidAddress(v@),
            EmailParseError::MissingField(n) => ErrorModel::Missing(n@),
        }
    }
}

/// The value of a result of [`ParsedEmail::from_email`].
pub open spec fn outcome(r: Result<ParsedEmail, EmailParseError>) -> Result<EmailModel, ErrorModel> {
    match r {
        Ok(p) => Ok(p@),
        Err(e) => Err(e@),
    }
}

/// The message of the fault reported when fewer than two addresses were found.
pub open spec fn both_required() -> Seq<char> {
    "Both 'From' and 'To' fields are required"@
}

/// Headers whose value must be an address.
pub open spec fn is_address_field(name: Seq<char>) -> bool {
    name == "From"@ || name == "To"@
}

/// The `(name, value)` text of a header line of `s`.
pub open spec fn header_text(s: Seq<char>, h: HeaderLine) -> (Seq<char>, Seq<char>) {
    (s.subrange(h.name_start, h.name_end), s.subrange(h.value_start, h.value_end))
}

/// The fault of a single header, if any.
pub open spec fn header_fault(p: (Seq<char>, Seq<char>)) -> Option<ErrorModel> {
    if is_address_field(p.0) {
        if valid_address(p.1) {
            None
        } else {
            Some(ErrorModel::InvalidAddress(p.1))
        }
    } else if (p.0.len() == 0) != (p.1.len() == 0) {
        Some(ErrorModel::Missing(p.0))
    } else {
        None
    }
}

/// The fault of the first faulty header, in source order.
pub open spec fn first_fault(ps: Seq<(Seq<char>, Seq<char>)>) -> Option<ErrorModel>
    decreases ps.len(),
{
    if ps.len() == 0 {
        None
    } else {
        match first_fault(ps.drop_last()) {
            Some(e) => Some(e),
            None => header_fault(ps.last()),
        }
    }
}

/// Once a prefix has a fault, the whole sequence has that fault.
proof fn lemma_fault_of_prefix(ps: Seq<(Seq<char>, Seq<char>)>, n: int)
    requires
        0 <= n <= ps.len(),
        first_fault(ps.take(n)) is Some,
    ensures
        first_fault(ps) == first_fault(ps.take(n)),
    decreases ps.len(),
{
    if n == ps.len() {
        assert(ps.take(n) =~= ps);
    } else {
        assert(ps.drop_last().take(n) =~= ps.take(n));
        lemma_fault_of_prefix(ps.drop_last(), n);
    }
}

/// The values of the address-bearing headers, in source order.
pub open spec fn addresses_of(ps: Seq<(Seq<char>, Seq<char>)>) -> Seq<Seq<char>>
    decreases ps.len(),
{
    if ps.len() == 0 {
        seq![]
    } else if is_address_field(ps.last().0) {
        addresses_of(ps.drop_last()).push(ps.last().1)
    } else {
        addresses_of(ps.drop_last())
    }
}

/// The headers of a parse tree as text.
pub open spec fn header_pairs(s: Seq<char>, hs: Seq<HeaderLine>) -> Seq<(Seq<char>, Seq<char>)> {
    hs.map_values(|h: HeaderLine| header_text(s, h))
}

/// What parsing `s` gives.
pub open spec fn parse_email(s: Seq<char>) -> Result<EmailModel, ErrorModel> {
    match message_tree(s) {
        None => Err(ErrorModel::Syntax(stop_text(headers_from(s, 0).1 as nat))),
        Some((hs, body_start)) => {
            let ps = header_pairs(s, hs);
            match first_fault(ps) {
                Some(e) => Err(e),
                None => if addresses_of(ps).len() < 2 {
                    Err(ErrorModel::Missing(both_required()))
                } else {
                    Ok(
                        EmailModel {
                            headers: ps,
                            body: s.subrange(body_start, s.len() as int),
                            email_addresses: addresses_of(ps),
                        },
                    )
                },
            }
        },
    }
}

proof fn lemma_no_fault(ps: Seq<(Seq<char>, Seq<char>)>)
    requires
        forall|m: int| 0 <= m < ps.len() ==> header_fault(#[trigger] ps[m]) is None,
    ensures
        first_fault(ps) is None,
    decreases ps.len(),
{
    if ps.len() > 0 {
        assert(forall|m: int|
            0 <= m < ps.drop_last().len() ==> #[trigger] ps.drop_last()[m] == ps[m]);
        lemma_no_fault(ps.drop_last());
    }
}

proof fn lemma_addresses_at_least_one(ps: Seq<(Seq<char>, Seq<char>)>, m: int)
    requires
        0 <= m < ps.len(),
        is_address_field(ps[m].0),
    ensures
        addresses_of(ps).len() >= 1,
    decreases ps.len(),
{
    if m < ps.len() - 1 {
        assert(ps.drop_last()[m] == ps[m]);
        lemma_addresses_at_least_one(ps.drop_last(), m);
    }
}

proof fn lemma_addresses_at_least_two(ps: Seq<(Seq<char>, Seq<char>)>, m1: int, m2: int)
    requires
        0 <= m1 < m2 < ps.len(),
        is_address_field(ps[m1].0),
        is_address_field(ps[m2].0),
    ensures
        addresses_of(ps).len() >= 2,
    decreases ps.len(),
{
    assert(ps.drop_last()[m1] == ps[m1]);
    if m2 < ps.len() - 1 {
        assert(ps.drop_last()[m2] == ps[m2]);
        lemma_addresses_at_least_two(ps.drop_last(), m1, m2);
    } else {
        lemma_addresses_at_least_one(ps.drop_last(), m1);
    }
}

proof fn lemma_addresses_at_most_one(ps: Seq<(Seq<char>, Seq<char>)>, m: int)
    requires
        forall|j: int| 0 <= j < ps.len() && j != m ==> !is_address_field(#[trigger] ps[j].0),
    ensures
        addresses_of(ps).len() <= 1,
        m >= ps.len() ==> addresses_of(ps).len() == 0,
    decreases ps.len(),
{
    if ps.len() > 0 {
        assert(forall|j: int|
            0 <= j < ps.drop_last().len() ==> #[trigger] ps.drop_last()[j] == ps[j]);
        lemma_addresses_at_most_one(ps.drop_last(), m);
    }
}

/// A message that matches the grammar, has a `From` and a `To` header, and
/// whose every `From` and `To` value is an address, is accepted; its headers
/// are its header lines, all of them, in source order.
pub proof fn lemma_well_formed_accepted(s: Seq<char>, hs: Seq<HeaderLine>, body_start: int)
    requires
        message_tree(s) == Some((hs, body_start)),
        exists|m: int| 0 <= m < hs.len() && #[trigger] header_pairs(s, hs)[m].0 == "From"@,
        exists|m: int| 0 <= m < hs.len() && #[trigger] header_pairs(s, hs)[m].0 == "To"@,
        forall|m: int|
            0 <= m < hs.len() && is_address_field(#[trigger] header_pairs(s, hs)[m].0)
                ==> valid_address(header_pairs(s, hs)[m].1),
    ensures
        parse_email(s) is Ok,
        parse_email(s)->Ok_0.headers == header_pairs(s, hs),
        parse_email(s)->Ok_0.headers.len() == hs.len(),
{
    let ps = header_pairs(s, hs);
    assert forall|m: int| 0 <= m < ps.len() implies header_fault(#[trigger] ps[m]) is None by {
        lemma_tree_spans(s, hs, body_start, m);
    }
    lemma_no_fault(ps);
    let mf = choose|m: int| 0 <= m < hs.len() && #[trigger] header_pairs(s, hs)[m].0 == "From"@;
    let mt = choose|m: int| 0 <= m < hs.len() && #[trigger] header_pairs(s, hs)[m].0 == "To"@;
    reveal_strlit("From");
    reveal_strlit("To");
    assert(mf != mt) by {
        assert("From"@.len() != "To"@.len());
    }
    if mf < mt {
        lemma_addresses_at_least_two(ps, mf, mt);
    } else {
        lemma_addresses_at_least_two(ps, mt, mf);
    }
}

/// A message that matches the grammar and has exactly one `From` or `To`
/// header, whose value is an address, is rejected for a missing field.
pub proof fn lemma_single_address_rejected(s: Seq<char>, hs: Seq<HeaderLine>, body_start: int, m: int)
    requires
        message_tree(s) == Some((hs, body_start)),
        0 <= m < hs.len(),
        is_address_field(header_pairs(s, hs)[m].0),
        valid_address(header_pairs(s, hs)[m].1),
        forall|j: int|
            0 <= j < hs.len() && j != m ==> !is_address_field(#[trigger] header_pairs(s, hs)[j].0),
    ensures
        parse_email(s) == Err::<EmailModel, ErrorModel>(ErrorModel::Missing(both_required())),
{
    let ps = header_pairs(s, hs);
    assert forall|j: int| 0 <= j < ps.len() implies header_fault(#[trigger] ps[j]) is None by {
        lemma_tree_spans(s, hs, body_start, j);
    }
    lemma_no_fault(ps);
    lemma_addresses_at_most_one(ps, m);
}

/// The grammar already rules out empty header fields: every header of a
/// message that matches it has a non-empty name and a non-empty value, so
/// none of them is rejected as a missing field.
pub proof fn lemma_matched_headers_not_empty(s: Seq<char>, hs: Seq<HeaderLine>, body_start: int, m: int)
    requires
        message_tree(s) == Some((hs, body_start)),
        0 <= m < hs.len(),
    ensures
        header_pairs(s, hs)[m].0.len() > 0,
        header_pairs(s, hs)[m].1.len() > 0,
        !(header_fault(header_pairs(s, hs)[m]) matches Some(ErrorModel::Missing(_))),
{
    lemma_tree_spans(s, hs, body_start, m);
}

/// The body of an accepted message is exactly the input after its first blank
/// line.
pub proof fn lemma_body_is_rest_after_blank_line(s: Seq<char>)
    requires
        parse_email(s) is Ok,
    ensures
        exists|k: int|
            0 <= k <= s.len() && #[trigger] blank_line_at(s, k) && (forall|j: int|
                0 <= j < k ==> !#[trigger] blank_line_at(s, j)) && parse_email(s)->Ok_0.body
                == s.subrange(k + newline_len(s, k), s.len() as int),
{
    let (hs, b) = message_tree(s)->0;
    lemma_body_after_first_blank_line(s, hs, b);
}

/// Parsing depends on the input text alone: two results for the same text
/// are equal.
pub proof fn lemma_parse_repeatable(
    input: &str,
    r1: Result<ParsedEmail, EmailParseError>,
    r2: Result<ParsedEmail, EmailParseError>,
)
    requires
        outcome(r1) == parse_email(input@),
        outcome(r2) == parse_email(input@),
    ensures
        outcome(r1) == outcome(r2),
{
}

/// Whether `cs[start..end]` spells `lit`.
fn span_is(cs: &Vec<char>, start: usize, end: usize, lit: &str) -> (r: bool)
    requires
        start <= end <= cs.len(),
    ensures
        r == (cs@.subrange(start as int, end as int) == lit@),
{
    let n = lit.unicode_len();
    if end - start != n {
        return false;
    }
    let mut i: usize = 0;
    while i < n
        invariant
            n == lit@.len(),
            end - start == n,
            start <= end <= cs.len(),
            i <= n,
            forall|j: int| 0 <= j < i ==> cs@[start + j] == lit@[j],
        decreases n - i,
    {
        if cs[start + i] != lit.get_char(i) {
            assert(cs@.subrange(start as int, end as int)[i as int] != lit@[i as int]);
            return false;
        }
        i = i + 1;
    }
    assert(cs@.subrange(start as int, end as int) =~= lit@);
    true
}

/// The text of `s` between two character positions.
fn text_between(s: &str, start: usize, end: usize) -> (r: String)
    requires
        start <= end <= s@.len(),
    ensures
        r@ == s@.subrange(start as int, end as int),
{
    String::from_str(s.substring_char(start, end))
}

impl ParsedEmail {
    /// Parses `input` as a message: headers, a blank line, a body.
    pub fn from_email(input: &str) -> (r: Result<ParsedEmail, EmailParseError>)
        ensures
            outcome(r) == parse_email(input@),
    {
        let cs = chars_of(input);
        let tree = match match_message(&cs) {
            Ok(t) => t,
            Err(detail) => {
                return Err(EmailParseError::ParseError(detail));
            },
        };
        let ghost s = input@;
        let ghost ps = header_pairs(s, tree@.0);
        let mut headers: Vec<(String, String)> = Vec::new();
        let mut email_addresses: Vec<String> = Vec::new();
        let mut i: usize = 0;
        while i < tree.headers.len()
            invariant
                s == input@,
                cs@ == s,
                message_tree(s) == Some(tree@),
                ps == header_pairs(s, tree@.0),
                i <= tree.headers.len(),
                headers@.map_values(|p: (String, String)| (p.0@, p.1@)) == ps.take(i as int),
                email_addresses@.map_values(|a: String| a@) == addresses_of(ps.take(i as int)),
                first_fault(ps.take(i as int)) is None,
            decreases tree.headers.len() - i,
        {
            let h: HeaderSpan = tree.headers[i];
            proof {
                lemma_tree_spans(s, tree@.0, tree@.1, i as int);
            }
            let name = text_between(input, h.name_start, h.name_end);
            let value = text_between(input, h.value_start, h.value_end);
            let ghost p = (name@, value@);
            assert(ps[i as int] == p);
            assert(ps.take(i as int + 1).drop_last() =~= ps.take(i as int));
            assert(ps.take(i as int + 1).last() == p);
            if span_is(&cs, h.name_start, h.name_end, "From") || span_is(
                &cs,
                h.name_start,
                h.name_end,
                "To",
            ) {
                if !address_in(&cs, h.value_start, h.value_end) {
                    proof {
                        lemma_fault_of_prefix(ps, i as int + 1);
                    }
                    return Err(EmailParseError::InvalidEmailAddress(value));
                }
                let ghost before = email_addresses@.map_values(|a: String| a@);
                email_addresses.push(value.clone());
                assert(email_addresses@.map_values(|a: String| a@) =~= before.push(value@));
            } else if (h.name_end == h.name_start) != (h.value_end == h.value_start) {
                proof {
                    lemma_fault_of_prefix(ps, i as int + 1);
                }
                return Err(EmailParseError::MissingField(name));
            }
            let ghost before = headers@.map_values(|p: (String, String)| (p.0@, p.1@));
            headers.push((name, value));
            assert(headers@.map_values(|p: (String, String)| (p.0@, p.1@)) =~= before.push(p));
            assert(ps.take(i as int + 1) =~= ps.take(i as int).push(p));
            i = i + 1;
        }
        assert(ps.take(i as int) =~= ps);
        if email_addresses.len() < 2 {
            return Err(EmailParseError::MissingField(String::from_str("Both 'From' and 'To' fields are required")));
        }
        let body = text_between(input, tree.body_start, cs.len());
        Ok(ParsedEmail { headers, body, email_addresses })
    }
}

} // verus!
