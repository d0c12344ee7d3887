//! Record and message codec.
//!
//! Every record and every wire message is encoded as self-delimited text: a
//! one-character tag, then the decimal length of each payload followed by a
//! space, then the payloads themselves.  A whole file or stream direction
//! carries exactly one encoded item, so decoding always consumes the entire
//! string.  Encoding is deterministic, decoding accepts exactly the image of
//! encoding, and the two invert each other.

use vstd::prelude::*;

use crate::decimal::all_digits;
use crate::decimal::digit_run_end;
use crate::decimal::digit_val;
use crate::decimal::digits_val;
use crate::decimal::is_canonical_digits;
use crate::decimal::is_digit;
use crate::decimal::lemma_canonical_digits_unique;
use crate::decimal::lemma_digit_run_end_props;
use crate::decimal::lemma_digits_canonical;
use crate::decimal::lemma_digits_val_nonneg;
use crate::decimal::lemma_digits_val_prefix_le;
use crate::decimal::spec_digits;
use crate::decimal::usize_to_decimal;

verus! {

// ---------------------------------------------------------------------------
// Framing: a tag character followed by length-prefixed payloads.
// ---------------------------------------------------------------------------
/// A tagged message with no payload.
pub open spec fn spec_frame0(tag: char) -> Seq<char> {
    seq![tag]
}

/// A tagged message with one payload.
pub open spec fn spec_frame1(tag: char, a: Seq<char>) -> Seq<char> {
    seq![tag] + spec_digits(a.len()) + seq![' '] + a
}

/// A tagged message with two payloads.
pub open spec fn spec_frame2(tag: char, a: Seq<char>, b: Seq<char>) -> Seq<char> {
    seq![tag] + spec_digits(a.len()) + seq![' '] + spec_digits(b.len()) + seq![' '] + a + b
}

/// Reads one length prefix beginning at `start`: a canonical digit run
/// followed by a space.  Yields the length and the position after the space.
pub open spec fn spec_len_prefix(s: Seq<char>, start: int) -> Option<(int, int)> {
    let e = digit_run_end(s, start);
    let run = s.subrange(start, e);
    if e < s.len() && s[e] == ' ' && is_canonical_digits(run) {
        Some((digits_val(run), e + 1))
    } else {
        None
    }
}

/// Decodes a one-payload frame: the whole of `s`, no more and no less.
pub open spec fn spec_dec1(s: Seq<char>, tag: char) -> Option<Seq<char>> {
    if s.len() >= 1 && s[0] == tag {
        match spec_len_prefix(s, 1) {
            Some((v, next)) => {
                if 0 <= v && s.len() - next == v {
                    Some(s.subrange(next, s.len() as int))
                } else {
                    None
                }
            },
            None => None,
        }
    } else {
        None
    }
}

/// Decodes a two-payload frame: the whole of `s`, no more and no less.
pub open spec fn spec_dec2(s: Seq<char>, tag: char) -> Option<(Seq<char>, Seq<char>)> {
    if s.len() >= 1 && s[0] == tag {
        match spec_len_prefix(s, 1) {
            Some((v1, n1)) => match spec_len_prefix(s, n1) {
                Some((v2, n2)) => {
                    if 0 <= v1 && 0 <= v2 && s.len() - n2 == v1 + v2 {
                        Some((s.subrange(n2, n2 + v1), s.subrange(n2 + v1, s.len() as int)))
                    } else {
                        None
                    }
                },
                None => None,
            },
            None => None,
        }
    } else {
        None
    }
}

// ---------------------------------------------------------------------------
// Round-trip proofs for the framing.
// ---------------------------------------------------------------------------
/// A canonical digit run followed by a space parses back to its value.
proof fn lemma_len_prefix_at(prefix: Seq<char>, run: Seq<char>, tail: Seq<char>)
    requires
        is_canonical_digits(run),
    ensures
        ({
            let s = prefix + run + seq![' '] + tail;
            let start = prefix.len() as int;
            &&& spec_len_prefix(s, start) == Some((digits_val(run), start + run.len() + 1))
            &&& s.subrange(start, start + run.len()) =~= run
            &&& s.len() == start + run.len() + 1 + tail.len()
        }),
{
    let s = prefix + run + seq![' '] + tail;
    let start = prefix.len() as int;
    let e = start + run.len() as int;
    let pr = prefix + run;
    let prs = prefix + run + seq![' '];
    assert forall|k: int| start <= k < e implies is_digit(#[trigger] s[k]) by {
        assert(pr[k] == run[k - start]);
        assert(prs[k] == pr[k]);
        assert(s[k] == prs[k]);
    }
    assert(prs[e] == ' ');
    assert(s[e] == ' ');
    assert(!is_digit(' '));
    lemma_digit_run_end_props(s, start);
    let e0 = digit_run_end(s, start);
    if e0 < e {
        assert(is_digit(s[e0]));
        assert(false);
    }
    if e0 > e {
        assert(is_digit(s[e]));
        assert(false);
    }
    assert(e0 == e);
    assert forall|k: int| start <= k < e implies s[k] == run[k - start] by {
        assert(pr[k] == run[k - start]);
        assert(prs[k] == pr[k]);
        assert(s[k] == prs[k]);
    }
    assert(s.subrange(start, e) =~= run);
}

/// Encoding a one-payload frame and decoding it returns the payload.
proof fn lemma_dec1_enc1(tag: char, a: Seq<char>)
    ensures
        spec_dec1(spec_frame1(tag, a), tag) == Some(a),
        spec_frame1(tag, a).len() >= 3,
        spec_frame1(tag, a)[0] == tag,
{
    let digits = spec_digits(a.len());
    lemma_digits_canonical(a.len());
    let s = spec_frame1(tag, a);
    assert(seq![tag].len() == 1);
    lemma_len_prefix_at(seq![tag], digits, a);
    lemma_digits_val_nonneg(digits);
    let next: int = 1 + digits.len() as int + 1;
    assert(spec_len_prefix(s, 1) == Some((a.len() as int, next)));
    assert(s.len() - next == a.len());
    assert(s.subrange(next, s.len() as int) =~= a);
}

/// Decoding a one-payload frame succeeds only on that frame's encoding.
proof fn lemma_dec1_sound(s: Seq<char>, tag: char)
    requires
        spec_dec1(s, tag) is Some,
    ensures
        s == spec_frame1(tag, spec_dec1(s, tag)->Some_0),
{
    let a = spec_dec1(s, tag)->Some_0;
    let e = digit_run_end(s, 1);
    lemma_digit_run_end_props(s, 1);
    let run = s.subrange(1, e);
    lemma_canonical_digits_unique(run);
    let v = digits_val(run);
    assert(spec_digits(v as nat) == run);
    assert(a == s.subrange(e + 1, s.len() as int));
    assert(a.len() == v);
    assert(s =~= seq![tag] + run + seq![' '] + a);
    assert(spec_frame1(tag, a) == seq![tag] + spec_digits(a.len()) + seq![' '] + a);
    assert(spec_digits(a.len()) == run);
    assert(s =~= spec_frame1(tag, a));
}

/// Encoding a two-payload frame and decoding it returns the payloads.
proof fn lemma_dec2_enc2(tag: char, a: Seq<char>, b: Seq<char>)
    ensures
        spec_dec2(spec_frame2(tag, a, b), tag) == Some((a, b)),
        spec_frame2(tag, a, b).len() >= 5,
        spec_frame2(tag, a, b)[0] == tag,
{
    let da = spec_digits(a.len());
    let db = spec_digits(b.len());
    lemma_digits_canonical(a.len());
    lemma_digits_canonical(b.len());
    let s = spec_frame2(tag, a, b);
    assert(s =~= seq![tag] + da + seq![' '] + (db + seq![' '] + a + b));
    lemma_len_prefix_at(seq![tag], da, db + seq![' '] + a + b);
    let n1: int = 1 + da.len() as int + 1;
    assert(spec_len_prefix(s, 1) == Some((a.len() as int, n1)));
    let prefix2 = seq![tag] + da + seq![' '];
    assert(prefix2.len() == n1);
    assert(s =~= prefix2 + db + seq![' '] + (a + b));
    lemma_len_prefix_at(prefix2, db, a + b);
    let n2: int = n1 + db.len() as int + 1;
    assert(spec_len_prefix(s, n1) == Some((b.len() as int, n2)));
    assert(s.len() - n2 == a.len() + b.len());
    assert(s.subrange(n2, n2 + a.len() as int) =~= a) by {
        assert((prefix2 + db + seq![' '] + (a + b)).subrange(n2, n2 + a.len() as int) =~= a);
    }
    assert(s.subrange(n2 + a.len() as int, s.len() as int) =~= b) by {
        assert((prefix2 + db + seq![' '] + (a + b)).subrange(n2 + a.len() as int, s.len() as int)
            =~= b);
    }
}

/// Decoding a two-payload frame succeeds only on that frame's encoding.
proof fn lemma_dec2_sound(s: Seq<char>, tag: char)
    requires
        spec_dec2(s, tag) is Some,
    ensures
        s == spec_frame2(
            tag,
            spec_dec2(s, tag)->Some_0.0,
            spec_dec2(s, tag)->Some_0.1,
        ),
{
    let (a, b) = spec_dec2(s, tag)->Some_0;
    let e1 = digit_run_end(s, 1);
    lemma_digit_run_end_props(s, 1);
    let run1 = s.subrange(1, e1);
    lemma_canonical_digits_unique(run1);
    let v1 = digits_val(run1);
    let n1 = e1 + 1;
    let e2 = digit_run_end(s, n1);
    lemma_digit_run_end_props(s, n1);
    let run2 = s.subrange(n1, e2);
    lemma_canonical_digits_unique(run2);
    let v2 = digits_val(run2);
    let n2 = e2 + 1;
    assert(a == s.subrange(n2, n2 + v1));
    assert(b == s.subrange(n2 + v1, s.len() as int));
    assert(a.len() == v1);
    assert(b.len() == v2);
    assert(spec_digits(a.len()) == run1);
    assert(spec_digits(b.len()) == run2);
    assert(s =~= seq![tag] + run1 + seq![' '] + run2 + seq![' '] + a + b);
    assert(s =~= spec_frame2(tag, a, b));
}

// ---------------------------------------------------------------------------
// Records.
// ---------------------------------------------------------------------------
/// The mathematical form of a record.
pub enum RecordModel {
    Put { key: Seq<char>, value: Seq<char> },
    Remove { key: Seq<char> },
}

/// A single mutation, as stored in one slot file.
pub enum Record {
    Put(String, String),
    Remove(String),
}

impl View for Record {
    type V = RecordModel;

    open spec fn view(&self) -> RecordModel {
        match self {
            Record::Put(k, v) => RecordModel::Put { key: k@, value: v@ },
            Record::Remove(k) => RecordModel::Remove { key: k@ },
        }
    }
}

pub open spec fn spec_encode_record(m: RecordModel) -> Seq<char> {
    match m {
        RecordModel::Put { key, value } => spec_frame2('S', key, value),
        RecordModel::Remove { key } => spec_frame1('R', key),
    }
}

pub open spec fn spec_decode_record(s: Seq<char>) -> Option<RecordModel> {
    if s.len() >= 1 && s[0] == 'S' {
        match spec_dec2(s, 'S') {
            Some((k, v)) => Some(RecordModel::Put { key: k, value: v }),
            None => None,
        }
    } else if s.len() >= 1 && s[0] == 'R' {
        match spec_dec1(s, 'R') {
            Some(k) => Some(RecordModel::Remove { key: k }),
            None => None,
        }
    } else {
        None
    }
}

/// The record codec round-trips: decoding an encoded record gives it back.
pub proof fn lemma_decode_encode_record(m: RecordModel)
    ensures
        spec_decode_record(spec_encode_record(m)) == Some(m),
{
    match m {
        RecordModel::Put { key, value } => {
            lemma_dec2_enc2('S', key, value);
        },
        RecordModel::Remove { key } => {
            lemma_dec1_enc1('R', key);
        },
    }
}

/// Decoding succeeds only on the image of encoding.
pub proof fn lemma_decode_record_sound(s: Seq<char>)
    requires
        spec_decode_record(s) is Some,
    ensures
        s == spec_encode_record(spec_decode_record(s)->Some_0),
{
    if s.len() >= 1 && s[0] == 'S' {
        lemma_dec2_sound(s, 'S');
    } else {
        lemma_dec1_sound(s, 'R');
    }
}

// ---------------------------------------------------------------------------
// Requests and responses.
// ---------------------------------------------------------------------------
/// The mathematical form of a request.
pub enum RequestModel {
    Get { key: Seq<char> },
    Put { key: Seq<char>, value: Seq<char> },
    Remove { key: Seq<char> },
}

/// One client request, carried by one connection.
pub enum Request {
    Get(String),
    Put(String, String),
    Remove(String),
}

impl View for Request {
    type V = RequestModel;

    open spec fn view(&self) -> RequestModel {
        match self {
            Request::Get(k) => RequestModel::Get { key: k@ },
            Request::Put(k, v) => RequestModel::Put { key: k@, value: v@ },
            Request::Remove(k) => RequestModel::Remove { key: k@ },
        }
    }
}

pub open spec fn spec_encode_request(m: RequestModel) -> Seq<char> {
    match m {
        RequestModel::Get { key } => spec_frame1('G', key),
        RequestModel::Put { key, value } => spec_frame2('S', key, value),
        RequestModel::Remove { key } => spec_frame1('R', key),
    }
}

pub open spec fn spec_decode_request(s: Seq<char>) -> Option<RequestModel> {
    if s.len() >= 1 && s[0] == 'G' {
        match spec_dec1(s, 'G') {
            Some(k) => Some(RequestModel::Get { key: k }),
            None => None,
        }
    } else if s.len() >= 1 && s[0] == 'S' {
        match spec_dec2(s, 'S') {
            Some((k, v)) => Some(RequestModel::Put { key: k, value: v }),
            None => None,
        }
    } else if s.len() >= 1 && s[0] == 'R' {
        match spec_dec1(s, 'R') {
            Some(k) => Some(RequestModel::Remove { key: k }),
            None => None,
        }
    } else {
        None
    }
}

pub proof fn lemma_decode_encode_request(m: RequestModel)
    ensures
        spec_decode_request(spec_encode_request(m)) == Some(m),
{
    match m {
        RequestModel::Get { key } => {
            lemma_dec1_enc1('G', key);
        },
        RequestModel::Put { key, value } => {
            lemma_dec2_enc2('S', key, value);
        },
        RequestModel::Remove { key } => {
            lemma_dec1_enc1('R', key);
        },
    }
}

pub proof fn lemma_decode_request_sound(s: Seq<char>)
    requires
        spec_decode_request(s) is Some,
    ensures
        s == spec_encode_request(spec_decode_request(s)->Some_0),
{
    if s.len() >= 1 && s[0] == 'G' {
        lemma_dec1_sound(s, 'G');
    } else if s.len() >= 1 && s[0] == 'S' {
        lemma_dec2_sound(s, 'S');
    } else {
        lemma_dec1_sound(s, 'R');
    }
}

/// The mathematical form of a response.
pub enum ResponseModel {
    Done { value: Option<Seq<char>> },
    Failed { message: Seq<char> },
}

/// One server response: success, carrying a value only for a get, or the
/// text of an engine failure.
pub enum Response {
    Done(Option<String>),
    Failed(String),
}

impl View for Response {
    type V = ResponseModel;

    open spec fn view(&self) -> ResponseModel {
        match self {
            Response::Done(Some(v)) => ResponseModel::Done { value: Some(v@) },
            Response::Done(None) => ResponseModel::Done { value: None },
            Response::Failed(m) => ResponseModel::Failed { message: m@ },
        }
    }
}

pub open spec fn spec_encode_response(m: ResponseModel) -> Seq<char> {
    match m {
        ResponseModel::Done { value: Some(v) } => spec_frame1('V', v),
        ResponseModel::Done { value: None } => spec_frame0('N'),
        ResponseModel::Failed { message } => spec_frame1('F', message),
    }
}

pub open spec fn spec_decode_response(s: Seq<char>) -> Option<ResponseModel> {
    if s.len() == 1 && s[0] == 'N' {
        Some(ResponseModel::Done { value: None })
    } else if s.len() >= 1 && s[0] == 'V' {
        match spec_dec1(s, 'V') {
            Some(v) => Some(ResponseModel::Done { value: Some(v) }),
            None => None,
        }
    } else if s.len() >= 1 && s[0] == 'F' {
        match spec_dec1(s, 'F') {
            Some(m) => Some(ResponseModel::Failed { message: m }),
            None => None,
        }
    } else {
        None
    }
}

pub proof fn lemma_decode_encode_response(m: ResponseModel)
    ensures
        spec_decode_response(spec_encode_response(m)) == Some(m),
{
    match m {
        ResponseModel::Done { value: Some(v) } => {
            lemma_dec1_enc1('V', v);
        },
        ResponseModel::Done { value: None } => {
            assert(spec_frame0('N') =~= seq!['N']);
        },
        ResponseModel::Failed { message } => {
            lemma_dec1_enc1('F', message);
        },
    }
}

pub proof fn lemma_decode_response_sound(s: Seq<char>)
    requires
        spec_decode_response(s) is Some,
    ensures
        s == spec_encode_response(spec_decode_response(s)->Some_0),
{
    if s.len() == 1 && s[0] == 'N' {
        assert(s =~= spec_frame0('N'));
    } else if s.len() >= 1 && s[0] == 'V' {
        lemma_dec1_sound(s, 'V');
    } else {
        lemma_dec1_sound(s, 'F');
    }
}

// ---------------------------------------------------------------------------
// Executable encoding.
// ---------------------------------------------------------------------------
/// The digit value of a character, where it has one.
fn digit_of(c: char) -> (r: Option<usize>)
    ensures
        match r {
            Some(d) => is_digit(c) && d == digit_val(c) && d < 10,
            None => !is_digit(c),
        },
{
    match c {
        '0' => Some(0),
        '1' => Some(1),
        '2' => Some(2),
        '3' => Some(3),
        '4' => Some(4),
        '5' => Some(5),
        '6' => Some(6),
        '7' => Some(7),
        '8' => Some(8),
        '9' => Some(9),
        _ => None,
    }
}

fn encode_frame1(tag: &str, a: &str) -> (s: String)
    requires
        tag@.len() == 1,
    ensures
        s@ == spec_frame1(tag@[0], a@),
{
    let mut s = String::from_str(tag);
    let d = usize_to_decimal(a.unicode_len());
    s.append(d.as_str());
    s.append(" ");
    s.append(a);
    proof {
        reveal_strlit(" ");
        assert(tag@ =~= seq![tag@[0]]);
        assert(" "@ =~= seq![' ']);
        assert(s@ =~= spec_frame1(tag@[0], a@));
    }
    s
}

fn encode_frame2(tag: &str, a: &str, b: &str) -> (s: String)
    requires
        tag@.len() == 1,
    ensures
        s@ == spec_frame2(tag@[0], a@, b@),
{
    let mut s = String::from_str(tag);
    let da = usize_to_decimal(a.unicode_len());
    s.append(da.as_str());
    s.append(" ");
    let db = usize_to_decimal(b.unicode_len());
    s.append(db.as_str());
    s.append(" ");
    s.append(a);
    s.append(b);
    proof {
        reveal_strlit(" ");
        assert(tag@ =~= seq![tag@[0]]);
        assert(" "@ =~= seq![' ']);
        assert(s@ =~= spec_frame2(tag@[0], a@, b@));
    }
    s
}

pub fn encode_record(r: &Record) -> (s: String)
    ensures
        s@ == spec_encode_record(r@),
{
    proof {
        reveal_strlit("S");
        reveal_strlit("R");
    }
    match r {
        Record::Put(k, v) => encode_frame2("S", k.as_str(), v.as_str()),
        Record::Remove(k) => encode_frame1("R", k.as_str()),
    }
}

pub fn encode_request(r: &Request) -> (s: String)
    ensures
        s@ == spec_encode_request(r@),
{
    proof {
        reveal_strlit("G");
        reveal_strlit("S");
        reveal_strlit("R");
    }
    match r {
        Request::Get(k) => encode_frame1("G", k.as_str()),
        Request::Put(k, v) => encode_frame2("S", k.as_str(), v.as_str()),
        Request::Remove(k) => encode_frame1("R", k.as_str()),
    }
}

pub fn encode_response(r: &Response) -> (s: String)
    ensures
        s@ == spec_encode_response(r@),
{
    proof {
        reveal_strlit("V");
        reveal_strlit("N");
        reveal_strlit("F");
    }
    match r {
        Response::Done(Some(v)) => encode_frame1("V", v.as_str()),
        Response::Done(None) => {
            let s = String::from_str("N");
            proof {
                assert(s@ =~= spec_frame0('N'));
            }
            s
        },
        Response::Failed(m) => encode_frame1("F", m.as_str()),
    }
}

// ---------------------------------------------------------------------------
// Executable decoding.
// ---------------------------------------------------------------------------
/// Finds the end of the digit run that begins at `start`.
fn scan_digits(s: &str, start: usize, n: usize) -> (e: usize)
    requires
        n == s@.len(),
        start <= n,
    ensures
        e == digit_run_end(s@, start as int),
        start <= e <= n,
{
    let mut j = start;
    loop
        invariant
            start <= j <= n,
            n == s@.len(),
            digit_run_end(s@, start as int) == digit_run_end(s@, j as int),
        ensures
            start <= j <= n,
            digit_run_end(s@, start as int) == j,
        decreases n - j,
    {
        if j >= n {
            break ;
        }
        let c = s.get_char(j);
        if digit_of(c).is_none() {
            break ;
        }
        j = j + 1;
    }
    j
}

/// Computes the value of the digit run `s[start..e]`, refusing values above
/// `limit`: a claimed payload length beyond the whole string can never match.
fn digits_value(s: &str, start: usize, e: usize, limit: usize) -> (r: Option<usize>)
    requires
        start <= e <= s@.len(),
        forall|k: int| start <= k < e ==> is_digit(s@[k]),
    ensures
        match r {
            Some(v) => digits_val(s@.subrange(start as int, e as int)) == v && v <= limit,
            None => digits_val(s@.subrange(start as int, e as int)) > limit,
        },
{
    let ghost run = s@.subrange(start as int, e as int);
    proof {
        assert(run.len() == 0 ==> digits_val(run) == 0);
        assert(s@.subrange(start as int, start as int) =~= Seq::<char>::empty());
        assert(digits_val(Seq::<char>::empty()) == 0);
    }
    let mut acc: usize = 0;
    let mut k = start;
    while k < e
        invariant
            start <= k <= e <= s@.len(),
            forall|k2: int| start <= k2 < e ==> is_digit(s@[k2]),
            acc <= limit,
            acc == digits_val(s@.subrange(start as int, k as int)),
        decreases e - k,
    {
        let c = s.get_char(k);
        let d = digit_of(c).unwrap();
        proof {
            let run = s@.subrange(start as int, e as int);
            let t = s@.subrange(start as int, k + 1);
            assert(t.drop_last() =~= s@.subrange(start as int, k as int));
            assert(t.last() == s@[k as int]);
            assert(digits_val(t) == acc * 10 + digit_val(s@[k as int]));
            assert forall|i: int| 0 <= i < run.len() implies is_digit(#[trigger] run[i]) by {
                assert(run[i] == s@[start + i]);
            }
            assert(run.subrange(0, k + 1 - start) =~= t);
            lemma_digits_val_prefix_le(run, k + 1 - start);
        }
        if acc > limit / 10 {
            proof {
                vstd::arithmetic::div_mod::lemma_fundamental_div_mod(limit as int, 10);
                assert(acc * 10 >= (limit / 10 + 1) * 10) by (nonlinear_arith)
                    requires
                        acc >= limit / 10 + 1,
                ;
                assert(acc * 10 + d > limit);
            }
            return None;
        }
        proof {
            vstd::arithmetic::div_mod::lemma_fundamental_div_mod(limit as int, 10);
            assert(acc * 10 <= (limit / 10) * 10) by (nonlinear_arith)
                requires
                    acc <= limit / 10,
            ;
            assert(acc * 10 <= limit);
        }
        let t = acc * 10;
        if d > limit - t {
            return None;
        }
        acc = t + d;
        k = k + 1;
    }
    proof {
        assert(s@.subrange(start as int, k as int) =~= run);
    }
    Some(acc)
}

/// Reads one length prefix beginning at `start`, as `spec_len_prefix` does,
/// refusing a length that exceeds the string itself.
fn parse_len_prefix(s: &str, start: usize, n: usize) -> (r: Option<(usize, usize)>)
    requires
        n == s@.len(),
        start <= n,
    ensures
        match spec_len_prefix(s@, start as int) {
            Some(vn) => match r {
                Some(rv) => rv.0 == vn.0 && rv.1 == vn.1 && rv.0 <= n && start < rv.1 <= n,
                None => vn.0 > n,
            },
            None => r is None,
        },
{
    let e = scan_digits(s, start, n);
    proof {
        lemma_digit_run_end_props(s@, start as int);
    }
    let ghost run = s@.subrange(start as int, e as int);
    if e == start {
        return None;
    }
    if e >= n {
        return None;
    }
    let sp = s.get_char(e);
    if sp != ' ' {
        return None;
    }
    let c0 = s.get_char(start);
    if c0 == '0' && e > start + 1 {
        proof {
            assert(run[0] == '0');
            assert(!is_canonical_digits(run));
        }
        return None;
    }
    proof {
        assert(run[0] == s@[start as int]);
        assert(is_canonical_digits(run));
    }
    match digits_value(s, start, e, n) {
        Some(v) => Some((v, e + 1)),
        None => None,
    }
}

/// Decodes the payload of a one-payload frame; the caller has checked the tag.
fn parse_one(s: &str, n: usize) -> (r: Option<String>)
    requires
        n == s@.len(),
        n >= 1,
    ensures
        match r {
            Some(a) => spec_dec1(s@, s@[0]) == Some(a@),
            None => spec_dec1(s@, s@[0]) is None,
        },
{
    match parse_len_prefix(s, 1, n) {
        Some((v, next)) => {
            if n - next != v {
                return None;
            }
            let a = s.substring_char(next, n);
            Some(String::from_str(a))
        },
        None => {
            proof {
                if spec_len_prefix(s@, 1) is Some {
                    let (v0, n0) = spec_len_prefix(s@, 1)->Some_0;
                    assert(v0 > n);
                    lemma_digit_run_end_props(s@, 1);
                    assert(n0 >= 1);
                    assert(s@.len() - n0 != v0);
                }
            }
            None
        },
    }
}

/// Decodes the payloads of a two-payload frame; the caller has checked the tag.
fn parse_two(s: &str, n: usize) -> (r: Option<(String, String)>)
    requires
        n == s@.len(),
        n >= 1,
    ensures
        match r {
            Some(ab) => spec_dec2(s@, s@[0]) == Some((ab.0@, ab.1@)),
            None => spec_dec2(s@, s@[0]) is None,
        },
{
    let p1 = parse_len_prefix(s, 1, n);
    if p1.is_none() {
        proof {
            lemma_spec_dec2_needs_fitting_lengths(s@, n as int);
        }
        return None;
    }
    let (v1, n1) = p1.unwrap();
    let p2 = parse_len_prefix(s, n1, n);
    if p2.is_none() {
        proof {
            lemma_spec_dec2_needs_fitting_lengths(s@, n as int);
        }
        return None;
    }
    let (v2, n2) = p2.unwrap();
    let rem = n - n2;
    if v1 > rem {
        return None;
    }
    if v2 != rem - v1 {
        return None;
    }
    let a = s.substring_char(n2, n2 + v1);
    let b = s.substring_char(n2 + v1, n);
    Some((String::from_str(a), String::from_str(b)))
}

/// Where a claimed length exceeds the whole string, a two-payload frame can
/// never check out: both its payloads lie inside the string.
proof fn lemma_spec_dec2_needs_fitting_lengths(s: Seq<char>, n: int)
    requires
        n == s.len(),
        n >= 1,
    ensures
        match spec_len_prefix(s, 1) {
            Some(vn) => vn.0 > n ==> spec_dec2(s, s[0]) is None,
            None => true,
        },
        match spec_len_prefix(s, 1) {
            Some(vn) => match spec_len_prefix(s, vn.1) {
                Some(vn2) => vn2.0 > n ==> spec_dec2(s, s[0]) is None,
                None => true,
            },
            None => true,
        },
{
    if spec_len_prefix(s, 1) is Some {
        let (v1, n1) = spec_len_prefix(s, 1)->Some_0;
        lemma_digit_run_end_props(s, 1);
        assert(n1 >= 1);
        if spec_len_prefix(s, n1) is Some {
            let (v2, n2) = spec_len_prefix(s, n1)->Some_0;
            lemma_digit_run_end_props(s, n1);
            assert(n2 >= n1);
            assert(v1 > n ==> !(0 <= v1 && 0 <= v2 && s.len() - n2 == v1 + v2));
            assert(v2 > n ==> !(0 <= v1 && 0 <= v2 && s.len() - n2 == v1 + v2));
        }
    }
}

pub fn decode_record(s: &str) -> (r: Option<Record>)
    ensures
        match r {
            Some(rec) => spec_decode_record(s@) == Some(rec@),
            None => spec_decode_record(s@) is None,
        },
{
    let n = s.unicode_len();
    if n == 0 {
        return None;
    }
    let c = s.get_char(0);
    if c == 'S' {
        match parse_two(s, n) {
            Some((k, v)) => Some(Record::Put(k, v)),
            None => None,
        }
    } else if c == 'R' {
        match parse_one(s, n) {
            Some(k) => Some(Record::Remove(k)),
            None => None,
        }
    } else {
        None
    }
}

pub fn decode_request(s: &str) -> (r: Option<Request>)
    ensures
        match r {
            Some(req) => spec_decode_request(s@) == Some(req@),
            None => spec_decode_request(s@) is None,
        },
{
    let n = s.unicode_len();
    if n == 0 {
        return None;
    }
    let c = s.get_char(0);
    if c == 'G' {
        match parse_one(s, n) {
            Some(k) => Some(Request::Get(k)),
            None => None,
        }
    } else if c == 'S' {
        match parse_two(s, n) {
            Some((k, v)) => Some(Request::Put(k, v)),
            None => None,
        }
    } else if c == 'R' {
        match parse_one(s, n) {
            Some(k) => Some(Request::Remove(k)),
            None => None,
        }
    } else {
        None
    }
}

pub fn decode_response(s: &str) -> (r: Option<Response>)
    ensures
        match r {
            Some(resp) => spec_decode_response(s@) == Some(resp@),
            None => spec_decode_response(s@) is None,
        },
{
    let n = s.unicode_len();
    if n == 0 {
        return None;
    }
    let c = s.get_char(0);
    if c == 'N' {
        if n == 1 {
            Some(Response::Done(None))
        } else {
            None
        }
    } else if c == 'V' {
        match parse_one(s, n) {
            Some(v) => Some(Response::Done(Some(v))),
            None => None,
        }
    } else if c == 'F' {
        match parse_one(s, n) {
            Some(m) => Some(Response::Failed(m)),
            None => None,
        }
    } else {
        None
    }
}

} // verus!
