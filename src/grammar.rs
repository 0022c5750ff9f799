//! The message grammar and the standalone address grammar.
//!
//! Each rule is stated once as a spec function over the characters of the
//! input, with ordered-choice, longest-run (PEG) semantics, and once as an
//! executable matcher proved to agree with it.
use vstd::prelude::*;
use vstd::string::*;

verus! {

/// A character allowed in a header field name: neither a colon nor whitespace.
pub open spec fn is_name_char(c: char) -> bool {
    c != ':' && c != ' ' && c != '\t' && c != '\r' && c != '\n'
}

/// Spacing allowed between the colon and a header field value.
pub open spec fn is_space(c: char) -> bool {
    c == ' ' || c == '\t'
}

/// A character allowed in a header field value: anything but a line break.
pub open spec fn is_value_char(c: char) -> bool {
    c != '\r' && c != '\n'
}

pub open spec fn is_alnum(c: char) -> bool {
    ('a' <= c && c <= 'z') || ('A' <= c && c <= 'Z') || ('0' <= c && c <= '9')
}

/// A character allowed in the local part of an address.
pub open spec fn is_local_char(c: char) -> bool {
    is_alnum(c) || c == '.' || c == '_' || c == '-'
}

/// A character allowed inside a domain label.
pub open spec fn is_label_char(c: char) -> bool {
    is_alnum(c) || c == '-'
}

/// The character classes that the message grammar repeats.
#[derive(Clone, Copy)]
pub enum CharClass {
    Name,
    Space,
    Value,
}

pub open spec fn in_class(k: CharClass, c: char) -> bool {
    match k {
        CharClass::Name => is_name_char(c),
        CharClass::Space => is_space(c),
        CharClass::Value => is_value_char(c),
    }
}

/// End of the longest run of characters of class `k` that starts at `i`.
pub open spec fn run_end(s: Seq<char>, i: int, k: CharClass) -> int
    decreases s.len() - i,
{
    if 0 <= i < s.len() && in_class(k, s[i]) {
        run_end(s, i + 1, k)
    } else {
        i
    }
}

/// Length of the line terminator (`"\n"` or `"\r\n"`) at `i`, or 0 if none starts there.
pub open spec fn newline_len(s: Seq<char>, i: int) -> int {
    if 0 <= i < s.len() && s[i] == '\n' {
        1
    } else if 0 <= i && i + 1 < s.len() && s[i] == '\r' && s[i + 1] == '\n' {
        2
    } else {
        0
    }
}

/// Where one header line lies in the input: the name span, the value span and
/// the position just after its line terminator.
pub struct HeaderLine {
    pub name_start: int,
    pub name_end: int,
    pub value_start: int,
    pub value_end: int,
    pub next: int,
}

/// The `header` rule at `i`: a non-empty name, `:`, optional spacing, a
/// non-empty value, a line terminator.
pub open spec fn header_at(s: Seq<char>, i: int) -> Option<HeaderLine> {
    let ne = run_end(s, i, CharClass::Name);
    if 0 <= i && i < ne && ne < s.len() && s[ne] == ':' {
        let vs = run_end(s, ne + 1, CharClass::Space);
        let ve = run_end(s, vs, CharClass::Value);
        let t = newline_len(s, ve);
        if vs < ve && t > 0 {
            Some(
                HeaderLine {
                    name_start: i,
                    name_end: ne,
                    value_start: vs,
                    value_end: ve,
                    next: ve + t,
                },
            )
        } else {
            None
        }
    } else {
        None
    }
}

/// The repetition `header*` from `i`: the lines matched, and where the
/// repetition stops.
pub open spec fn headers_from(s: Seq<char>, i: int) -> (Seq<HeaderLine>, int)
    decreases s.len() - i,
{
    match header_at(s, i) {
        Some(h) => if i < h.next <= s.len() {
            let (rest, end) = headers_from(s, h.next);
            (seq![h] + rest, end)
        } else {
            (seq![], i)
        },
        None => (seq![], i),
    }
}

/// The `email` rule over the whole input: the header lines, and where the body
/// starts (just after the blank separator line); `None` if the input does not
/// match.
pub open spec fn message_tree(s: Seq<char>) -> Option<(Seq<HeaderLine>, int)> {
    let (hs, p) = headers_from(s, 0);
    let t = newline_len(s, p);
    if t > 0 {
        Some((hs, p + t))
    } else {
        None
    }
}

/// A dot-separated domain with at least two non-empty labels.
pub open spec fn domain_ok_at(d: Seq<char>, i: int) -> bool {
    is_label_char(d[i]) || (d[i] == '.' && 0 < i < d.len() - 1 && d[i - 1] != '.')
}

pub open spec fn valid_domain(d: Seq<char>) -> bool {
    &&& exists|i: int| 0 <= i < d.len() && d[i] == '.'
    &&& forall|i: int| 0 <= i < d.len() ==> #[trigger] domain_ok_at(d, i)
}

/// The `email_address` rule: a non-empty local part, `@`, a valid domain.
pub open spec fn valid_address(a: Seq<char>) -> bool {
    exists|k: int|
        0 < k < a.len() && #[trigger] a[k] == '@' && (forall|j: int|
            0 <= j < k ==> is_local_char(#[trigger] a[j])) && valid_domain(
            a.subrange(k + 1, a.len() as int),
        )
}

/// Executable form of [`HeaderLine`].
#[derive(Clone, Copy, Debug, PartialEq, Eq)]
pub struct HeaderSpan {
    pub name_start: usize,
    pub name_end: usize,
    pub value_start: usize,
    pub value_end: usize,
    pub next: usize,
}

impl View for HeaderSpan {
    type V = HeaderLine;

    open spec fn view(&self) -> HeaderLine {
        HeaderLine {
            name_start: self.name_start as int,
            name_end: self.name_end as int,
            value_start: self.value_start as int,
            value_end: self.value_end as int,
            next: self.next as int,
        }
    }
}

/// The parse tree of a message: its header lines and where its body starts.
#[derive(Debug)]
pub struct MessageTree {
    pub headers: Vec<HeaderSpan>,
    pub body_start: usize,
}

impl View for MessageTree {
    type V = (Seq<HeaderLine>, int);

    open spec fn view(&self) -> (Seq<HeaderLine>, int) {
        (self.headers@.map_values(|h: HeaderSpan| h@), self.body_start as int)
    }
}

/// The characters of `s`, one per element.
pub fn chars_of(s: &str) -> (r: Vec<char>)
    ensures
        r@ == s@,
{
    let n = s.unicode_len();
    let mut r: Vec<char> = Vec::new();
    let mut i: usize = 0;
    while i < n
        invariant
            n == s@.len(),
            i <= n,
            r@ == s@.subrange(0, i as int),
        decreases n - i,
    {
        r.push(s.get_char(i));
        i = i + 1;
    }
    assert(r@ =~= s@);
    r
}

/// Executable form of [`in_class`].
pub fn class_has(k: CharClass, c: char) -> (r: bool)
    ensures
        r == in_class(k, c),
{
    match k {
        CharClass::Name => c != ':' && c != ' ' && c != '\t' && c != '\r' && c != '\n',
        CharClass::Space => c == ' ' || c == '\t',
        CharClass::Value => c != '\r' && c != '\n',
    }
}

/// Executable form of [`is_alnum`].
pub fn alnum(c: char) -> (r: bool)
    ensures
        r == is_alnum(c),
{
    ('a' <= c && c <= 'z') || ('A' <= c && c <= 'Z') || ('0' <= c && c <= '9')
}

/// Executable form of [`run_end`].
pub fn scan_run(cs: &Vec<char>, i: usize, k: CharClass) -> (r: usize)
    requires
        i <= cs.len(),
    ensures
        r as int == run_end(cs@, i as int, k),
        i <= r <= cs.len(),
{
    let mut j = i;
    while j < cs.len() && class_has(k, cs[j])
        invariant
            i <= j <= cs.len(),
            run_end(cs@, j as int, k) == run_end(cs@, i as int, k),
        decreases cs.len() - j,
    {
        j = j + 1;
    }
    j
}

/// Executable form of [`newline_len`].
pub fn newline_at(cs: &Vec<char>, i: usize) -> (r: usize)
    ensures
        r as int == newline_len(cs@, i as int),
{
    if i < cs.len() && cs[i] == '\n' {
        1
    } else if i < cs.len() && i + 1 < cs.len() && cs[i] == '\r' && cs[i + 1] == '\n' {
        2
    } else {
        0
    }
}


/// The decimal digits of `n`, most significant first.
pub open spec fn decimal(n: nat) -> Seq<char>
    decreases n,
{
    if n < 10 {
        seq!["0123456789"@[n as int]]
    } else {
        decimal(n / 10).push("0123456789"@[(n % 10) as int])
    }
}

/// The description of a message that stops matching at character `pos`.
pub open spec fn stop_text(pos: nat) -> Seq<char> {
    "expected a header line or the blank line that ends the headers at character "@ + decimal(pos)
}

/// Executable form of [`decimal`].
pub fn decimal_text(n: usize) -> (r: String)
    ensures
        r@ == decimal(n as nat),
    decreases n,
{
    proof {
        reveal_strlit("0123456789");
    }
    let digits = "0123456789";
    let d = n % 10;
    let digit = digits.substring_char(d, d + 1);
    assert(digit@ =~= seq![digits@[d as int]]);
    if n < 10 {
        String::from_str(digit)
    } else {
        let mut r = decimal_text(n / 10);
        r.append(digit);
        assert(r@ =~= decimal(n as nat));
        r
    }
}

/// Executable form of [`header_at`].
pub fn match_header(cs: &Vec<char>, i: usize) -> (r: Option<HeaderSpan>)
    requires
        i <= cs.len(),
    ensures
        match r {
            Some(h) => header_at(cs@, i as int) == Some(h@) && i < h.next <= cs.len(),
            None => header_at(cs@, i as int) is None,
        },
{
    let ne = scan_run(cs, i, CharClass::Name);
    if i < ne && ne < cs.len() && cs[ne] == ':' {
        let vs = scan_run(cs, ne + 1, CharClass::Space);
        let ve = scan_run(cs, vs, CharClass::Value);
        let t = newline_at(cs, ve);
        if vs < ve && t > 0 {
            Some(
                HeaderSpan { name_start: i, name_end: ne, value_start: vs, value_end: ve, next: ve + t },
            )
        } else {
            None
        }
    } else {
        None
    }
}

/// Executable form of [`message_tree`]: the parse tree, or a description of
/// where the input stops matching the grammar.
pub fn match_message(cs: &Vec<char>) -> (r: Result<MessageTree, String>)
    ensures
        match r {
            Ok(t) => message_tree(cs@) == Some(t@),
            Err(m) => message_tree(cs@) is None && m@ == stop_text(headers_from(cs@, 0).1 as nat),
        },
{
    let mut headers: Vec<HeaderSpan> = Vec::new();
    let mut pos: usize = 0;
    loop
        invariant
            pos <= cs.len(),
            headers_from(cs@, 0) == (
                headers@.map_values(|h: HeaderSpan| h@) + headers_from(cs@, pos as int).0,
                headers_from(cs@, pos as int).1,
            ),
        ensures
            pos <= cs.len(),
            headers_from(cs@, 0) == (headers@.map_values(|h: HeaderSpan| h@), pos as int),
        decreases cs.len() - pos,
    {
        match match_header(cs, pos) {
            Some(h) => {
                let ghost before = headers@.map_values(|h: HeaderSpan| h@);
                let ghost rest = headers_from(cs@, h.next as int).0;
                headers.push(h);
                assert(headers@.map_values(|h: HeaderSpan| h@) =~= before.push(h@));
                assert(before + (seq![h@] + rest) =~= before.push(h@) + rest);
                pos = h.next;
            },
            None => {
                assert(headers@.map_values(|h: HeaderSpan| h@) + seq![] =~= headers@.map_values(
                    |h: HeaderSpan| h@,
                ));
                break ;
            },
        }
    }
    let t = newline_at(cs, pos);
    if t > 0 {
        Ok(MessageTree { headers, body_start: pos + t })
    } else {
        let msg = String::from_str(
            "expected a header line or the blank line that ends the headers at character ",
        );
        Err(msg.concat(decimal_text(pos).as_str()))
    }
}


/// The `@` of an address is the first character outside the local-part
/// class, so an address is valid exactly when that character is an `@` after
/// a non-empty local part and a valid domain follows it.
pub proof fn lemma_address_split(a: Seq<char>, p: int)
    requires
        0 <= p <= a.len(),
        forall|j: int| 0 <= j < p ==> is_local_char(#[trigger] a[j]),
        p == a.len() || !is_local_char(a[p]),
    ensures
        valid_address(a) <==> (0 < p < a.len() && a[p] == '@' && valid_domain(
            a.subrange(p + 1, a.len() as int),
        )),
{
    if valid_address(a) {
        let k = choose|k: int|
            0 < k < a.len() && #[trigger] a[k] == '@' && (forall|j: int|
                0 <= j < k ==> is_local_char(#[trigger] a[j])) && valid_domain(
                a.subrange(k + 1, a.len() as int),
            );
        if k < p {
            assert(is_local_char(a[k]));
        } else if k > p {
            assert(is_local_char(a[p]));
        }
    }
    if 0 < p < a.len() && a[p] == '@' && valid_domain(a.subrange(p + 1, a.len() as int)) {
        assert(a[p] == '@');
    }
}

/// Executable form of [`is_local_char`].
pub fn local_char(c: char) -> (r: bool)
    ensures
        r == is_local_char(c),
{
    alnum(c) || c == '.' || c == '_' || c == '-'
}

/// Executable form of [`is_label_char`].
pub fn label_char(c: char) -> (r: bool)
    ensures
        r == is_label_char(c),
{
    alnum(c) || c == '-'
}

/// Whether the characters `cs[start..end]` form an address: executable form
/// of [`valid_address`].
pub fn address_in(cs: &Vec<char>, start: usize, end: usize) -> (r: bool)
    requires
        start <= end <= cs.len(),
    ensures
        r == valid_address(cs@.subrange(start as int, end as int)),
{
    let ghost a = cs@.subrange(start as int, end as int);
    let mut i = start;
    while i < end && local_char(cs[i])
        invariant
            start <= i <= end <= cs.len(),
            a == cs@.subrange(start as int, end as int),
            forall|j: int| 0 <= j < i - start ==> is_local_char(#[trigger] a[j]),
        decreases end - i,
    {
        i = i + 1;
    }
    proof {
        lemma_address_split(a, i - start);
    }
    if i == start || i >= end || cs[i] != '@' {
        return false;
    }
    let d0 = i + 1;
    let ghost d = cs@.subrange(d0 as int, end as int);
    assert(a.subrange(i - start + 1, a.len() as int) =~= d);
    let mut j = d0;
    let mut dot = false;
    while j < end
        invariant
            start < d0 <= j <= end <= cs.len(),
            a == cs@.subrange(start as int, end as int),
            d == cs@.subrange(d0 as int, end as int),
            valid_address(a) == valid_domain(d),
            forall|m: int| 0 <= m < j - d0 ==> #[trigger] domain_ok_at(d, m),
            dot == exists|m: int| 0 <= m < j - d0 && d[m] == '.',
        decreases end - j,
    {
        let c = cs[j];
        if label_char(c) {
        } else if c == '.' && j > d0 && j + 1 < end && cs[j - 1] != '.' {
            dot = true;
        } else {
            assert(!domain_ok_at(d, j - d0));
            return false;
        }
        assert(domain_ok_at(d, j - d0));
        j = j + 1;
    }
    dot
}


/// A run of class `k` from `i` stays within the input, holds only characters
/// of that class, and ends at the end of the input or at a character outside it.
pub proof fn lemma_run_end(s: Seq<char>, i: int, k: CharClass)
    requires
        0 <= i <= s.len(),
    ensures
        i <= run_end(s, i, k) <= s.len(),
        forall|j: int| i <= j < run_end(s, i, k) ==> in_class(k, #[trigger] s[j]),
        run_end(s, i, k) == s.len() || !in_class(k, s[run_end(s, i, k)]),
    decreases s.len() - i,
{
    if i < s.len() && in_class(k, s[i]) {
        lemma_run_end(s, i + 1, k);
    }
}

/// The spans of a header line are ordered and lie within the input.
pub open spec fn line_in_bounds(s: Seq<char>, h: HeaderLine, lo: int) -> bool {
    lo <= h.name_start < h.name_end < h.value_start < h.value_end < h.next <= s.len()
}

/// A matched header line has a non-empty name and a non-empty value.
pub proof fn lemma_header_at(s: Seq<char>, i: int)
    requires
        0 <= i <= s.len(),
        header_at(s, i) is Some,
    ensures
        line_in_bounds(s, header_at(s, i)->0, i),
        header_at(s, i)->0.name_start == i,
{
    let ne = run_end(s, i, CharClass::Name);
    lemma_run_end(s, i, CharClass::Name);
    lemma_run_end(s, ne + 1, CharClass::Space);
    let vs = run_end(s, ne + 1, CharClass::Space);
    lemma_run_end(s, vs, CharClass::Value);
}

/// The header lines matched from `i` lie between `i` and the end of the input.
pub proof fn lemma_headers_from(s: Seq<char>, i: int)
    requires
        0 <= i <= s.len(),
    ensures
        i <= headers_from(s, i).1 <= s.len(),
        forall|m: int|
            0 <= m < headers_from(s, i).0.len() ==> line_in_bounds(
                s,
                #[trigger] headers_from(s, i).0[m],
                i,
            ),
    decreases s.len() - i,
{
    match header_at(s, i) {
        Some(h) => {
            lemma_header_at(s, i);
            lemma_headers_from(s, h.next);
            let rest = headers_from(s, h.next).0;
            assert forall|m: int| 0 <= m < headers_from(s, i).0.len() implies line_in_bounds(
                s,
                #[trigger] headers_from(s, i).0[m],
                i,
            ) by {
                if m > 0 {
                    assert(headers_from(s, i).0[m] == rest[m - 1]);
                }
            }
        },
        None => {},
    }
}

/// Every header line of a parsed message lies within the input, and so does
/// the start of the body.
pub proof fn lemma_tree_spans(s: Seq<char>, hs: Seq<HeaderLine>, body_start: int, m: int)
    requires
        message_tree(s) == Some((hs, body_start)),
        0 <= m < hs.len(),
    ensures
        line_in_bounds(s, hs[m], 0),
        body_start <= s.len(),
{
    lemma_headers_from(s, 0);
}


/// The grammar engine: the `email` rule over a whole message and the
/// `email_address` rule over a whole address.
pub struct EmailParser;

impl EmailParser {
    /// Matches the `email` rule against all of `input`.
    pub fn parse_message(input: &str) -> (r: Result<MessageTree, String>)
        ensures
            match r {
                Ok(t) => message_tree(input@) == Some(t@),
                Err(m) => message_tree(input@) is None && m@ == stop_text(
                    headers_from(input@, 0).1 as nat,
                ),
            },
    {
        match_message(&chars_of(input))
    }

    /// Matches the `email_address` rule against all of `input`.
    pub fn parse_address(input: &str) -> (r: Result<(), String>)
        ensures
            r is Ok <==> valid_address(input@),
    {
        let cs = chars_of(input);
        assert(cs@.subrange(0, cs@.len() as int) =~= input@);
        if address_in(&cs, 0, cs.len()) {
            Ok(())
        } else {
            Err(String::from_str("expected a local part, '@' and a domain of two or more labels"))
        }
    }
}

/// Position `i` starts a line of `s`.
pub open spec fn line_start(s: Seq<char>, i: int) -> bool {
    i == 0 || (0 < i <= s.len() && s[i - 1] == '\n')
}

/// A blank line starts at `i`: a line terminator right at the start of a line.
pub open spec fn blank_line_at(s: Seq<char>, i: int) -> bool {
    line_start(s, i) && newline_len(s, i) > 0
}

/// No blank line starts inside the header lines matched from a line start,
/// and the repetition stops at a line start.
pub proof fn lemma_no_blank_line_in_headers(s: Seq<char>, i: int)
    requires
        0 <= i <= s.len(),
        line_start(s, i),
    ensures
        line_start(s, headers_from(s, i).1),
        forall|j: int| i <= j < headers_from(s, i).1 ==> !#[trigger] blank_line_at(s, j),
    decreases s.len() - i,
{
    match header_at(s, i) {
        Some(h) => {
            lemma_header_at(s, i);
            let ne = h.name_end;
            lemma_run_end(s, i, CharClass::Name);
            lemma_run_end(s, ne + 1, CharClass::Space);
            lemma_run_end(s, h.value_start, CharClass::Value);
            assert forall|j: int| i <= j < h.next implies !#[trigger] blank_line_at(s, j) by {
                if j == i {
                    assert(is_name_char(s[i]));
                } else {
                    let c = j - 1;
                    if c < ne {
                        assert(is_name_char(s[c]));
                    } else if c > ne && c < h.value_start {
                        assert(is_space(s[c]));
                    } else if h.value_start <= c < h.value_end {
                        assert(is_value_char(s[c]));
                    }
                }
            }
            lemma_no_blank_line_in_headers(s, h.next);
        },
        None => {},
    }
}

/// The body of a parsed message starts right after the first blank line of
/// the input.
pub proof fn lemma_body_after_first_blank_line(s: Seq<char>, hs: Seq<HeaderLine>, body_start: int)
    requires
        message_tree(s) == Some((hs, body_start)),
    ensures
        exists|k: int|
            0 <= k <= s.len() && #[trigger] blank_line_at(s, k) && (forall|j: int|
                0 <= j < k ==> !#[trigger] blank_line_at(s, j)) && body_start == k + newline_len(
                s,
                k,
            ),
{
    lemma_headers_from(s, 0);
    lemma_no_blank_line_in_headers(s, 0);
    let k = headers_from(s, 0).1;
    assert(blank_line_at(s, k));
}

} // verus!
