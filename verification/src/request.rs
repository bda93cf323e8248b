//! Turning the bytes a client sent into a routed request.
use vstd::prelude::*;

verus! {

/// One header line as the request parser saw it.
pub struct HeaderField {
    pub name: String,
    pub value: Vec<u8>,
}

/// The content of a [`HeaderField`].
pub struct HeaderFieldView {
    pub name: Seq<char>,
    pub value: Seq<u8>,
}

impl View for HeaderField {
    type V = HeaderFieldView;

    open spec fn view(&self) -> HeaderFieldView {
        HeaderFieldView { name: self.name@, value: self.value@ }
    }
}

/// What the request parser made of the head of a request.
///
/// `body_offset` is where the body starts when the head was complete, and `None` when the
/// bytes ended before the head did. `headers` are the parser's header slots: the parsed
/// headers when the head was complete, and every slot (filled or not) otherwise.
pub struct RequestHead {
    pub body_offset: Option<usize>,
    pub method: Option<String>,
    pub path: Option<String>,
    pub headers: Vec<HeaderField>,
}

/// The content of a [`RequestHead`].
pub struct RequestHeadView {
    pub body_offset: Option<usize>,
    pub method: Option<Seq<char>>,
    pub path: Option<Seq<char>>,
    pub headers: Seq<HeaderFieldView>,
}

pub open spec fn option_string_view(o: Option<String>) -> Option<Seq<char>> {
    match o {
        Some(s) => Some(s@),
        None => None,
    }
}

impl View for RequestHead {
    type V = RequestHeadView;

    open spec fn view(&self) -> RequestHeadView {
        RequestHeadView {
            body_offset: self.body_offset,
            method: option_string_view(self.method),
            path: option_string_view(self.path),
            headers: self.headers@.map_values(|h: HeaderField| h@),
        }
    }
}

/// What `httparse::Request::parse` makes of `buf` with `max_headers` header slots: `None`
/// when it reports an error.
pub uninterp spec fn httparse_request(buf: Seq<u8>, max_headers: nat) -> Option<RequestHeadView>;

/// Parses the head of an HTTP request with `max_headers` header slots.
///
/// Trusted: calls `httparse::Request::parse` and copies out what it filled in. Claims that
/// the copy is named `httparse_request` of the arguments, and that there are never more
/// header entries than slots (the parser hands back a prefix of the slots, or all of them).
#[verifier::external_body]
pub fn parse_request_head(buf: &[u8], max_headers: usize) -> (r: Option<RequestHead>)
    ensures
        r matches Some(h) ==> httparse_request(buf@, max_headers as nat) == Some(h@),
        r is None ==> httparse_request(buf@, max_headers as nat) is None,
        r matches Some(h) ==> h.headers.len() <= max_headers,
{
    let mut slots = vec![httparse::EMPTY_HEADER; max_headers];
    let mut req = httparse::Request::new(&mut slots);
    let offset = match req.parse(buf) {
        Ok(httparse::Status::Complete(n)) => Some(n),
        Ok(httparse::Status::Partial) => None,
        Err(_) => return None,
    };
    let headers = req.headers.iter().map(
        |h| HeaderField { name: h.name.to_string(), value: h.value.to_vec() },
    ).collect();
    let method = req.method.map(|m| m.to_string());
    let path = req.path.map(|p| p.to_string());
    Some(RequestHead { body_offset: offset, method, path, headers })
}

#[verifier::external_type_specification]
#[verifier::external_body]
#[verifier::reject_recursive_types(T)]
pub struct ExHeaderMap<T>(http::HeaderMap<T>);

#[verifier::external_type_specification]
#[verifier::external_body]
pub struct ExHeaderValue(http::HeaderValue);

/// The values a `http::HeaderMap` holds, per header name.
pub uninterp spec fn header_entries(map: http::HeaderMap) -> Map<Seq<char>, Seq<Seq<u8>>>;

/// The characters `http` accepts in a header name: letters, digits and
/// ``!#$%&'*+-.^_`|~``.
pub open spec fn is_token_char(c: char) -> bool {
    ||| ('0' <= c && c <= '9')
    ||| ('a' <= c && c <= 'z')
    ||| ('A' <= c && c <= 'Z')
    ||| c == '!' || c == '#' || c == '$' || c == '%' || c == '&' || c == '\'' || c == '*'
    ||| c == '+' || c == '-' || c == '.' || c == '^' || c == '_' || c == '`' || c == '|'
    ||| c == '~'
}

/// `c` with an upper-case ASCII letter made lower-case.
pub open spec fn ascii_lowercase(c: char) -> char {
    if 'A' <= c && c <= 'Z' {
        ((c as u32) + 32) as char
    } else {
        c
    }
}

/// What `http::HeaderName::from_str` makes of `name`: the name in lower case, which is how
/// the map keys it, when it is 1 to 65535 token characters long, and `None` otherwise.
pub open spec fn header_name_canonical(name: Seq<char>) -> Option<Seq<char>> {
    if 0 < name.len() <= 65535 && forall|i: int| 0 <= i < name.len() ==> is_token_char(name[i]) {
        Some(name.map_values(|c: char| ascii_lowercase(c)))
    } else {
        None
    }
}

/// The bytes `http::HeaderValue::from_bytes` accepts: no control byte other than tab.
pub open spec fn header_value_valid(value: Seq<u8>) -> bool {
    forall|i: int| 0 <= i < value.len() ==> (value[i] >= 32 && value[i] != 127) || value[i] == 9
}

/// The entries of a map that holds no header.
pub open spec fn no_header_entries() -> Map<Seq<char>, Seq<Seq<u8>>> {
    Map::empty()
}

/// An empty header map.
///
/// Trusted: calls `http::HeaderMap::new`, which holds no entries.
#[verifier::external_body]
pub fn header_map_new() -> (map: http::HeaderMap)
    ensures
        header_entries(map) == no_header_entries(),
{
    http::HeaderMap::new()
}

/// Adds the header `name: value`, replacing every value the name had; reports whether
/// both name and value were accepted (the map is unchanged otherwise).
///
/// Trusted: calls `http::HeaderName::from_str` (which maps each byte through its table of
/// token characters, lower-casing letters, and rejects an empty name, one longer than
/// 65535 bytes, or one with another byte: `header_name_canonical`),
/// `http::HeaderValue::from_bytes` (whose check is stated in `header_value_valid`) and `http::HeaderMap::insert`, which removes the
/// earlier values of the key. `insert` panics only once the map has grown past its maximum
/// capacity, which a map of fewer than 4096 names has not reached.
#[verifier::external_body]
pub fn header_map_insert(map: &mut http::HeaderMap, name: &str, value: &[u8]) -> (ok: bool)
    requires
        header_entries(*old(map)).dom().finite(),
        header_entries(*old(map)).dom().len() < 4096,
    ensures
        ok == (header_name_canonical(name@) is Some && header_value_valid(value@)),
        ok ==> header_entries(*final(map)) == header_entries(*old(map)).insert(
            header_name_canonical(name@)->0,
            seq![value@],
        ),
        !ok ==> header_entries(*final(map)) == header_entries(*old(map)),
{
    let parsed_name = <http::HeaderName as std::str::FromStr>::from_str(name);
    match (parsed_name, http::HeaderValue::from_bytes(value)) {
        (Ok(n), Ok(v)) => {
            map.insert(n, v);
            true
        },
        _ => false,
    }
}

/// `Content-Length`
pub open spec fn content_length_name() -> Seq<char> {
    "Content-Length"@
}

pub open spec fn is_digit(b: u8) -> bool {
    48 <= b <= 57
}

/// The number that the decimal digits `s` denote.
pub open spec fn digits_value(s: Seq<u8>) -> nat
    decreases s.len(),
{
    if s.len() == 0 {
        0
    } else {
        digits_value(s.drop_last()) * 10 + (s.last() - 48) as nat
    }
}

/// The digits of a `usize` written in decimal with an optional leading `+`.
pub open spec fn unsigned_digits(s: Seq<u8>) -> Seq<u8> {
    if s.len() > 0 && s[0] == 43 {
        s.drop_first()
    } else {
        s
    }
}

/// What `usize::from_str` gives for the bytes `s`: the value of an optional `+` followed by
/// one or more decimal digits, when it fits.
pub open spec fn parse_usize(s: Seq<u8>) -> Option<usize> {
    let d = unsigned_digits(s);
    if d.len() > 0 && (forall|i: int| 0 <= i < d.len() ==> is_digit(d[i])) && digits_value(d)
        <= usize::MAX {
        Some(digits_value(d) as usize)
    } else {
        None
    }
}

/// The position of the first header named exactly `Content-Length`, or `hs.len()`.
pub open spec fn content_length_position(hs: Seq<HeaderFieldView>) -> int
    decreases hs.len(),
{
    if hs.len() == 0 {
        0
    } else if hs[0].name == content_length_name() {
        0
    } else {
        1 + content_length_position(hs.drop_first())
    }
}

/// The body length a request announces: the value of its first `Content-Length` header
/// when that is a valid number, and 0 otherwise.
pub open spec fn announced_length(hs: Seq<HeaderFieldView>) -> usize {
    let k = content_length_position(hs);
    if 0 <= k < hs.len() {
        match parse_usize(hs[k].value) {
            Some(n) => n,
            None => 0,
        }
    } else {
        0
    }
}

proof fn lemma_digits_value_grows(s: Seq<u8>, i: int)
    requires
        0 <= i <= s.len(),
        forall|j: int| 0 <= j < s.len() ==> is_digit(s[j]),
    ensures
        digits_value(s.take(i)) <= digits_value(s),
    decreases s.len() - i,
{
    if i < s.len() {
        lemma_digits_value_grows(s, i + 1);
        assert(s.take(i + 1).drop_last() =~= s.take(i));
        assert(s.take(i + 1).last() == s[i]);
        assert(digits_value(s.take(i + 1)) == digits_value(s.take(i)) * 10 + (s[i] - 48) as nat);
    } else {
        assert(s.take(i) =~= s);
    }
}

/// Reads a `usize` written as an optional `+` followed by decimal digits.
pub fn parse_usize_bytes(s: &Vec<u8>) -> (r: Option<usize>)
    ensures
        r == parse_usize(s@),
{
    let start: usize = if s.len() > 0 && s[0] == 43 { 1 } else { 0 };
    let ghost d = unsigned_digits(s@);
    assert(d =~= s@.skip(start as int));
    if start >= s.len() {
        return None;
    }
    let mut acc: usize = 0;
    let mut i: usize = start;
    while i < s.len()
        invariant
            start <= i <= s.len(),
            d == unsigned_digits(s@),
            d =~= s@.skip(start as int),
            forall|j: int| 0 <= j < i - start ==> is_digit(d[j]),
            acc == digits_value(d.take(i - start)),
        decreases s.len() - i,
    {
        let b = s[i];
        if b < 48 || b > 57 {
            proof {
                assert(d[i - start] == b);
                assert(!is_digit(d[i - start]));
            }
            return None;
        }
        let digit = (b - 48) as usize;
        proof {
            assert(d.take(i + 1 - start).drop_last() =~= d.take(i - start));
            assert(d[i - start] == b);
            assert(d.take(i + 1 - start).last() == b);
            assert(digits_value(d.take(i + 1 - start)) == acc * 10 + digit);
        }
        if acc > (usize::MAX - digit) / 10 {
            proof {
                assert(digits_value(d.take(i + 1 - start)) > usize::MAX) by (nonlinear_arith)
                    requires
                        acc > (usize::MAX - digit) / 10,
                        digits_value(d.take(i + 1 - start)) == acc * 10 + digit,
                ;
                if forall|j: int| 0 <= j < d.len() ==> is_digit(d[j]) {
                    lemma_digits_value_grows(d, i + 1 - start);
                }
            }
            return None;
        }
        proof {
            assert(acc * 10 + digit <= usize::MAX) by (nonlinear_arith)
                requires
                    acc <= (usize::MAX - digit) / 10,
            ;
        }
        acc = acc * 10 + digit;
        i = i + 1;
    }
    proof {
        assert(d.take(i - start) =~= d);
    }
    Some(acc)
}

/// The body length a request announces in its first `Content-Length` header, or 0.
pub fn content_length(headers: &Vec<HeaderField>) -> (r: usize)
    ensures
        r == announced_length(headers@.map_values(|h: HeaderField| h@)),
{
    let ghost hs = headers@.map_values(|h: HeaderField| h@);
    let wanted = crate::text::chars_of("Content-Length");
    let mut i: usize = 0;
    while i < headers.len()
        invariant
            i <= headers.len(),
            hs == headers@.map_values(|h: HeaderField| h@),
            wanted@ == content_length_name(),
            forall|j: int| 0 <= j < i ==> hs[j].name != content_length_name(),
        decreases headers.len() - i,
    {
        let name = crate::text::chars_of(headers[i].name.as_str());
        if crate::text::chars_equal(&name, &wanted) {
            proof {
                lemma_content_length_position(hs, i as int);
            }
            return match parse_usize_bytes(&headers[i].value) {
                Some(n) => n,
                None => 0,
            };
        }
        i = i + 1;
    }
    proof {
        lemma_content_length_position(hs, i as int);
    }
    0
}

proof fn lemma_content_length_position(hs: Seq<HeaderFieldView>, i: int)
    requires
        0 <= i <= hs.len(),
        forall|j: int| 0 <= j < i ==> hs[j].name != content_length_name(),
        i < hs.len() ==> hs[i].name == content_length_name(),
    ensures
        content_length_position(hs) == i,
    decreases i,
{
    if i > 0 {
        assert forall|j: int| 0 <= j < i - 1 implies hs.drop_first()[j].name != content_length_name() by {
            assert(hs.drop_first()[j] == hs[j + 1]);
        }
        lemma_content_length_position(hs.drop_first(), i - 1);
    }
}


/// The (name, value) insertions that reading each of `names` from every match in `caps`
/// makes, match after match.
pub open spec fn capture_pairs(
    names: Seq<Seq<char>>,
    caps: Seq<Seq<Option<Seq<char>>>>,
) -> Seq<(Seq<char>, Seq<char>)>
    decreases caps.len(),
{
    if caps.len() == 0 {
        seq![]
    } else {
        capture_pairs(names, caps.drop_last()) + Seq::new(
            names.len(),
            |j: int| (names[j], caps.last()[j]->Some_0),
        )
    }
}

/// Every match in `caps` captured every one of `names`.
pub open spec fn captures_complete(names: Seq<Seq<char>>, caps: Seq<Seq<Option<Seq<char>>>>) -> bool {
    forall|i: int, j: int| 0 <= i < caps.len() && 0 <= j < names.len() ==> #[trigger] caps[i][j] is Some
}

/// The parameter insertions that the captures `caps` of `names` make, in order, or `None`
/// when some match lacks one of the names.
pub fn capture_insertions(names: &Vec<String>, caps: &Vec<Vec<Option<String>>>) -> (r: Option<
    Vec<(String, String)>,
>)
    requires
        forall|i: int| 0 <= i < caps.len() ==> (#[trigger] caps@[i]).len() == names.len(),
    ensures
        r is Some <==> captures_complete(names.deep_view(), caps.deep_view()),
        r matches Some(ps) ==> ps.deep_view() == capture_pairs(names.deep_view(), caps.deep_view()),
{
    let ghost nv = names.deep_view();
    let ghost cv = caps.deep_view();
    let mut out: Vec<(String, String)> = Vec::new();
    let mut i: usize = 0;
    while i < caps.len()
        invariant
            nv == names.deep_view(),
            cv == caps.deep_view(),
            forall|q: int| 0 <= q < caps.len() ==> (#[trigger] caps@[q]).len() == names.len(),
            i <= caps.len(),
            captures_complete(nv, cv.take(i as int)),
            out.deep_view() == capture_pairs(nv, cv.take(i as int)),
        decreases caps.len() - i,
    {
        let cap = &caps[i];
        let ghost before = out.deep_view();
        assert(cv[i as int] == cap.deep_view());
        let mut j: usize = 0;
        while j < names.len()
            invariant
                nv == names.deep_view(),
                cv == caps.deep_view(),
                cap.len() == names.len(),
                cv[i as int] == cap.deep_view(),
                i < caps.len(),
                j <= names.len(),
                forall|q: int| 0 <= q < j ==> (#[trigger] cap.deep_view()[q]) is Some,
                out.deep_view() == before + Seq::new(j as nat, |q: int| (nv[q], cap.deep_view()[q]->Some_0)),
            decreases names.len() - j,
        {
            match &cap[j] {
                Some(v) => {
                    let ghost prev = out.deep_view();
                    let name_copy = names[j].clone();
                    let value_copy = v.clone();
                    out.push((name_copy, value_copy));
                    proof {
                        assert(cap.deep_view()[j as int] == Some(v@));
                        assert(nv[j as int] == names@[j as int]@);
                        assert(out.deep_view() =~= prev.push((nv[j as int], cap.deep_view()[j as int]->Some_0)));
                        assert(out.deep_view() =~= before + Seq::new(
                            (j + 1) as nat,
                            |q: int| (nv[q], cap.deep_view()[q]->Some_0),
                        ));
                    }
                },
                None => {
                    proof {
                        assert(cv[i as int][j as int] is None);
                    }
                    return None;
                },
            }
            j = j + 1;
        }
        proof {
            assert(cv.take(i + 1).drop_last() =~= cv.take(i as int));
            assert(cv.take(i + 1).last() == cv[i as int]);
            assert forall|a: int, b: int| 0 <= a < i + 1 && 0 <= b < nv.len() implies #[trigger] cv.take(i + 1)[a][b] is Some by {
                if a < i {
                    assert(cv.take(i as int)[a] == cv.take(i + 1)[a]);
                } else {
                    assert(cap.deep_view()[b] is Some);
                }
            }
            assert(out.deep_view() =~= capture_pairs(nv, cv.take(i + 1)));
        }
        i = i + 1;
    }
    proof {
        assert(cv.take(i as int) =~= cv);
    }
    Some(out)
}


/// The header map that inserting the headers `hs` one after the other builds, or `None`
/// when one of them is rejected.
pub open spec fn header_map_of(hs: Seq<HeaderFieldView>) -> Option<Map<Seq<char>, Seq<Seq<u8>>>>
    decreases hs.len(),
{
    if hs.len() == 0 {
        Some(no_header_entries())
    } else {
        match header_map_of(hs.drop_last()) {
            None => None,
            Some(m) => {
                let h = hs.last();
                if header_name_canonical(h.name) is Some && header_value_valid(h.value) {
                    Some(m.insert(header_name_canonical(h.name)->0, seq![h.value]))
                } else {
                    None
                }
            },
        }
    }
}

/// Whether the map takes a header: its name and its value are both accepted.
pub open spec fn header_accepted(h: HeaderFieldView) -> bool {
    header_name_canonical(h.name) is Some && header_value_valid(h.value)
}

/// Building a header map succeeds exactly when every header is accepted. The map then holds
/// the canonical name of every header and no other, and each name holds one value: that of
/// the last header whose name has that canonical form, whatever came before it.
pub proof fn lemma_header_map_keeps_last_value(hs: Seq<HeaderFieldView>)
    ensures
        header_map_of(hs) is Some <==> forall|j: int|
            0 <= j < hs.len() ==> #[trigger] header_accepted(hs[j]),
        header_map_of(hs) matches Some(m) ==> forall|k: Seq<char>|
            #[trigger] m.dom().contains(k) <==> exists|j: int|
                0 <= j < hs.len() && #[trigger] header_name_canonical(hs[j].name) == Some(k),
        header_map_of(hs) matches Some(m) ==> forall|j: int|
            #![trigger hs[j]]
            0 <= j < hs.len() && (forall|l: int|
                j < l < hs.len() ==> #[trigger] header_name_canonical(hs[l].name)
                    != header_name_canonical(hs[j].name)) ==> m[header_name_canonical(
                hs[j].name,
            )->0] == seq![hs[j].value],
    decreases hs.len(),
{
    if hs.len() > 0 {
        let p = hs.drop_last();
        let h = hs.last();
        lemma_header_map_keeps_last_value(p);
        assert forall|j: int| 0 <= j < p.len() implies #[trigger] p[j] == hs[j] by {}
        match header_map_of(p) {
            None => {
                let j0 = choose|j: int| 0 <= j < p.len() && !#[trigger] header_accepted(p[j]);
                assert(!header_accepted(hs[j0]));
            },
            Some(mp) => {
                if !header_accepted(h) {
                    assert(!header_accepted(hs[hs.len() - 1]));
                } else {
                    let c = header_name_canonical(h.name)->0;
                    let m = mp.insert(c, seq![h.value]);
                    assert(header_map_of(hs) == Some(m));
                    assert forall|j: int| 0 <= j < hs.len() implies #[trigger] header_accepted(
                        hs[j],
                    ) by {
                        if j < p.len() {
                            assert(header_accepted(p[j]));
                        }
                    }
                    assert forall|k: Seq<char>| #[trigger] m.dom().contains(k) <==> exists|j: int|
                        0 <= j < hs.len() && #[trigger] header_name_canonical(hs[j].name) == Some(
                            k,
                        ) by {
                        if m.dom().contains(k) {
                            if k == c {
                                assert(header_name_canonical(hs[hs.len() - 1].name) == Some(k));
                            } else {
                                assert(mp.dom().contains(k));
                                let j0 = choose|j: int|
                                    0 <= j < p.len() && #[trigger] header_name_canonical(
                                        p[j].name,
                                    ) == Some(k);
                                assert(header_name_canonical(hs[j0].name) == Some(k));
                            }
                        } else {
                            assert forall|j: int| 0 <= j < hs.len() implies #[trigger] header_name_canonical(
                                hs[j].name,
                            ) != Some(k) by {
                                if j < p.len() {
                                    assert(header_name_canonical(p[j].name) != Some(k));
                                }
                            }
                        }
                    }
                    assert forall|j: int|
                        #![trigger hs[j]]
                        0 <= j < hs.len() && (forall|l: int|
                            j < l < hs.len() ==> #[trigger] header_name_canonical(hs[l].name)
                                != header_name_canonical(hs[j].name)) implies m[header_name_canonical(
                            hs[j].name,
                        )->0] == seq![hs[j].value] by {
                        if j < p.len() {
                            assert(header_name_canonical(hs[hs.len() - 1].name)
                                != header_name_canonical(hs[j].name));
                            assert(header_accepted(p[j]));
                            assert forall|l: int| j < l < p.len() implies #[trigger] header_name_canonical(
                                p[l].name,
                            ) != header_name_canonical(p[j].name) by {
                                assert(header_name_canonical(hs[l].name)
                                    != header_name_canonical(hs[j].name));
                            }
                            assert(p[j] == hs[j]);
                        }
                    }
                }
            },
        }
    }
}

proof fn lemma_header_map_size(hs: Seq<HeaderFieldView>)
    ensures
        header_map_of(hs) matches Some(m) ==> m.dom().finite() && m.dom().len() <= hs.len(),
    decreases hs.len(),
{
    if hs.len() > 0 {
        lemma_header_map_size(hs.drop_last());
    }
}

proof fn lemma_header_map_failure_sticks(hs: Seq<HeaderFieldView>, i: int)
    requires
        0 <= i <= hs.len(),
        header_map_of(hs.take(i)) is None,
    ensures
        header_map_of(hs) is None,
    decreases hs.len() - i,
{
    if i == hs.len() {
        assert(hs.take(i) =~= hs);
    } else {
        assert(hs.take(i + 1).drop_last() =~= hs.take(i));
        lemma_header_map_failure_sticks(hs, i + 1);
    }
}

/// Builds the header map of `headers`, inserting them in order; `None` when a name or a
/// value is rejected.
pub fn build_header_map(headers: &Vec<HeaderField>) -> (r: Option<http::HeaderMap>)
    requires
        headers.len() < 4096,
    ensures
        match header_map_of(headers@.map_values(|h: HeaderField| h@)) {
            None => r is None,
            Some(m) => r matches Some(hm) && header_entries(hm) == m,
        },
{
    let ghost hs = headers@.map_values(|h: HeaderField| h@);
    let mut map = header_map_new();
    let mut i: usize = 0;
    assert(hs.take(0) =~= seq![]);
    while i < headers.len()
        invariant
            headers.len() < 4096,
            hs == headers@.map_values(|h: HeaderField| h@),
            i <= headers.len(),
            header_map_of(hs.take(i as int)) == Some(header_entries(map)),
        decreases headers.len() - i,
    {
        proof {
            lemma_header_map_size(hs.take(i as int));
            assert(hs.take(i + 1).drop_last() =~= hs.take(i as int));
            assert(hs.take(i + 1).last() == headers@[i as int]@);
        }
        let ok = header_map_insert(&mut map, headers[i].name.as_str(), headers[i].value.as_slice());
        if !ok {
            proof {
                lemma_header_map_failure_sticks(hs, i + 1);
            }
            return None;
        }
        i = i + 1;
    }
    assert(hs.take(i as int) =~= hs);
    Some(map)
}

/// The body that a request head announces within `buf`: empty when the head is
/// incomplete, otherwise the announced number of bytes right after the head, or `None`
/// when `buf` does not hold that many.
pub open spec fn request_body(head: RequestHeadView, buf: Seq<u8>) -> Option<Seq<u8>> {
    match head.body_offset {
        None => Some(seq![]),
        Some(off) => {
            let n = announced_length(head.headers);
            if off + n <= buf.len() {
                Some(buf.subrange(off as int, off + n))
            } else {
                None
            }
        },
    }
}

/// The bytes `buf[from..to]`.
fn copy_bytes(buf: &[u8], from: usize, to: usize) -> (r: Vec<u8>)
    requires
        from <= to <= buf@.len(),
    ensures
        r@ == buf@.subrange(from as int, to as int),
{
    let mut r: Vec<u8> = Vec::new();
    let mut i = from;
    while i < to
        invariant
            from <= i <= to <= buf@.len(),
            r@ == buf@.subrange(from as int, i as int),
        decreases to - i,
    {
        r.push(buf[i]);
        assert(buf@.subrange(from as int, i + 1) =~= buf@.subrange(from as int, i as int).push(buf@[i as int]));
        i = i + 1;
    }
    r
}

/// Cuts the body out of `buf` as `request_body` says.
pub fn extract_body(head_offset: Option<usize>, announced: usize, buf: &[u8]) -> (r: Option<Vec<u8>>)
    ensures
        match head_offset {
            None => r matches Some(b) && b@ == Seq::<u8>::empty(),
            Some(off) => if off + announced <= buf@.len() {
                r matches Some(b) && b@ == buf@.subrange(off as int, off + announced)
            } else {
                r is None
            },
        },
{
    match head_offset {
        None => Some(Vec::new()),
        Some(off) => {
            if announced <= buf.len() && off <= buf.len() - announced {
                Some(copy_bytes(buf, off, off + announced))
            } else {
                None
            }
        },
    }
}


/// A pair list as a name-to-value table.
pub type PairSeq = Seq<(Seq<char>, Seq<char>)>;

/// The position of the first pair named `k` in `ps`, or `ps.len()`.
pub open spec fn pair_index(ps: PairSeq, k: Seq<char>) -> int
    decreases ps.len(),
{
    if ps.len() == 0 {
        0
    } else if ps[0].0 == k {
        0
    } else {
        1 + pair_index(ps.drop_first(), k)
    }
}

/// The value `ps` holds for the name `k`, if any.
pub open spec fn pair_value(ps: PairSeq, k: Seq<char>) -> Option<Seq<char>> {
    if pair_index(ps, k) < ps.len() {
        Some(ps[pair_index(ps, k)].1)
    } else {
        None
    }
}

/// Inserting `p` into the table `ps`: the pair with its name is replaced in place, or `p`
/// is appended when there is none.
pub open spec fn insert_pair(ps: PairSeq, p: (Seq<char>, Seq<char>)) -> PairSeq {
    let i = pair_index(ps, p.0);
    if i < ps.len() {
        ps.update(i, p)
    } else {
        ps.push(p)
    }
}

/// The table that inserting the pairs `qs` one after the other into an empty one builds.
pub open spec fn last_pairs(qs: PairSeq) -> PairSeq
    decreases qs.len(),
{
    if qs.len() == 0 {
        seq![]
    } else {
        insert_pair(last_pairs(qs.drop_last()), qs.last())
    }
}

/// The value of the last pair named `k` in `qs`, if any.
pub open spec fn last_value_of(qs: PairSeq, k: Seq<char>) -> Option<Seq<char>>
    decreases qs.len(),
{
    if qs.len() == 0 {
        None
    } else if qs.last().0 == k {
        Some(qs.last().1)
    } else {
        last_value_of(qs.drop_last(), k)
    }
}

proof fn lemma_pair_index_bounds(ps: PairSeq, k: Seq<char>)
    ensures
        0 <= pair_index(ps, k) <= ps.len(),
        pair_index(ps, k) < ps.len() ==> ps[pair_index(ps, k)].0 == k,
        forall|j: int| 0 <= j < pair_index(ps, k) ==> ps[j].0 != k,
    decreases ps.len(),
{
    if ps.len() > 0 && ps[0].0 != k {
        lemma_pair_index_bounds(ps.drop_first(), k);
        assert forall|j: int| 0 <= j < pair_index(ps, k) implies ps[j].0 != k by {
            if j > 0 {
                assert(ps[j] == ps.drop_first()[j - 1]);
            }
        }
    }
}

proof fn lemma_pair_index_is(ps: PairSeq, k: Seq<char>, i: int)
    requires
        0 <= i <= ps.len(),
        forall|j: int| 0 <= j < i ==> ps[j].0 != k,
        i < ps.len() ==> ps[i].0 == k,
    ensures
        pair_index(ps, k) == i,
    decreases i,
{
    if i > 0 {
        assert(ps[0].0 != k);
        assert forall|j: int| 0 <= j < i - 1 implies ps.drop_first()[j].0 != k by {
            assert(ps.drop_first()[j] == ps[j + 1]);
        }
        lemma_pair_index_is(ps.drop_first(), k, i - 1);
    }
}

/// What inserting `p` does to the value of each name.
proof fn lemma_insert_pair_value(ps: PairSeq, p: (Seq<char>, Seq<char>), k: Seq<char>)
    ensures
        pair_value(insert_pair(ps, p), k) == (if p.0 == k { Some(p.1) } else { pair_value(ps, k) }),
{
    let i = pair_index(ps, p.0);
    let n = insert_pair(ps, p);
    lemma_pair_index_bounds(ps, p.0);
    lemma_pair_index_bounds(ps, k);
    let pk = pair_index(ps, k);
    if p.0 == k {
        lemma_pair_index_is(n, k, i);
    } else if i < ps.len() {
        // the replaced pair keeps its name, which is not `k`
        assert forall|j: int| 0 <= j < pk implies n[j].0 != k by {
            if j == i {
            } else {
                assert(n[j] == ps[j]);
            }
        }
        if pk < ps.len() {
            assert(pk != i);
            assert(n[pk] == ps[pk]);
        }
        lemma_pair_index_is(n, k, pk);
    } else {
        if pk < ps.len() {
            assert forall|j: int| 0 <= j < pk implies n[j].0 != k by {
                assert(n[j] == ps[j]);
            }
            assert(n[pk] == ps[pk]);
            lemma_pair_index_is(n, k, pk);
        } else {
            assert forall|j: int| 0 <= j < n.len() implies n[j].0 != k by {
                if j < ps.len() {
                    assert(n[j] == ps[j]);
                }
            }
            lemma_pair_index_is(n, k, n.len() as int);
        }
    }
}

/// A table built by insertions holds, for each name, the value of the last insertion of
/// that name, and nothing for names never inserted.
pub proof fn lemma_last_pairs_value(qs: PairSeq, k: Seq<char>)
    ensures
        pair_value(last_pairs(qs), k) == last_value_of(qs, k),
    decreases qs.len(),
{
    if qs.len() > 0 {
        lemma_last_pairs_value(qs.drop_last(), k);
        lemma_insert_pair_value(last_pairs(qs.drop_last()), qs.last(), k);
    }
}

/// A table built by insertions holds no name twice.
pub proof fn lemma_last_pairs_distinct(qs: PairSeq)
    ensures
        forall|a: int, b: int|
            0 <= a < last_pairs(qs).len() && 0 <= b < last_pairs(qs).len() && a != b
                ==> last_pairs(qs)[a].0 != last_pairs(qs)[b].0,
    decreases qs.len(),
{
    if qs.len() > 0 {
        let l = last_pairs(qs.drop_last());
        let q = qs.last();
        lemma_last_pairs_distinct(qs.drop_last());
        lemma_pair_index_bounds(l, q.0);
        let n = last_pairs(qs);
        assert forall|a: int, b: int| 0 <= a < n.len() && 0 <= b < n.len() && a != b implies n[a].0 != n[b].0 by {
            if pair_index(l, q.0) < l.len() {
                let i = pair_index(l, q.0);
                if a != i && b != i {
                    assert(n[a] == l[a] && n[b] == l[b]);
                } else if a == i {
                    assert(n[b] == l[b]);
                    assert(l[i].0 == q.0);
                } else {
                    assert(n[a] == l[a]);
                    assert(l[i].0 == q.0);
                }
            } else {
                if a < l.len() && b < l.len() {
                    assert(n[a] == l[a] && n[b] == l[b]);
                } else if a < l.len() {
                    assert(n[a] == l[a]);
                } else {
                    assert(n[b] == l[b]);
                }
            }
        }
    }
}

/// A name that some insertion carries has a last value.
pub proof fn lemma_last_value_present(qs: PairSeq, k: Seq<char>, j: int)
    requires
        0 <= j < qs.len(),
        qs[j].0 == k,
    ensures
        last_value_of(qs, k) is Some,
    decreases qs.len(),
{
    if qs.last().0 != k {
        assert(j < qs.len() - 1);
        assert(qs.drop_last()[j] == qs[j]);
        lemma_last_value_present(qs.drop_last(), k, j);
    }
}

/// The table that inserting the pairs `qs` in order builds: one pair per name, in the
/// order the names first appear, each with the value of its last insertion.
pub fn keep_last_pairs(qs: &Vec<(String, String)>) -> (r: Vec<(String, String)>)
    ensures
        r.deep_view() == last_pairs(qs.deep_view()),
{
    let ghost qv = qs.deep_view();
    let mut out: Vec<(String, String)> = Vec::new();
    let mut i: usize = 0;
    assert(qv.take(0) =~= seq![]);
    while i < qs.len()
        invariant
            qv == qs.deep_view(),
            i <= qs.len(),
            out.deep_view() == last_pairs(qv.take(i as int)),
        decreases qs.len() - i,
    {
        let ghost before = out.deep_view();
        let name = &qs[i].0;
        let mut j: usize = 0;
        while j < out.len() && out[j].0 != *name
            invariant
                j <= out.len(),
                out.deep_view() == before,
                forall|q: int| 0 <= q < j ==> out@[q].0@ != name@,
            decreases out.len() - j,
        {
            j = j + 1;
        }
        proof {
            assert forall|q: int| 0 <= q < j implies before[q].0 != name@ by {
                assert(before[q] == (out@[q].0@, out@[q].1@));
            }
            if j < out.len() {
                assert(before[j as int].0 == out@[j as int].0@);
            }
            lemma_pair_index_is(before, name@, j as int);
            assert(qv[i as int] == (qs@[i as int].0@, qs@[i as int].1@));
            assert(qv.take(i + 1).drop_last() =~= qv.take(i as int));
            assert(qv.take(i + 1).last() == qv[i as int]);
        }
        let pair = (qs[i].0.clone(), qs[i].1.clone());
        if j < out.len() {
            out.set(j, pair);
        } else {
            out.push(pair);
        }
        assert(out.deep_view() =~= last_pairs(qv.take(i + 1)));
        i = i + 1;
    }
    assert(qv.take(i as int) =~= qv);
    out
}

/// The path parameters that the captures `caps` of `names` give: each name once, with the
/// value it has in the last match, or `None` when some match lacks one of the names.
pub fn parameters_from_captures(names: &Vec<String>, caps: &Vec<Vec<Option<String>>>) -> (r: Option<
    Vec<(String, String)>,
>)
    requires
        forall|i: int| 0 <= i < caps.len() ==> (#[trigger] caps@[i]).len() == names.len(),
    ensures
        r is Some <==> captures_complete(names.deep_view(), caps.deep_view()),
        r matches Some(ps) ==> ps.deep_view() == last_pairs(capture_pairs(names.deep_view(), caps.deep_view())),
{
    match capture_insertions(names, caps) {
        Some(qs) => Some(keep_last_pairs(&qs)),
        None => None,
    }
}

} // verus!
