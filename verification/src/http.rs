//! The HTTP protocol engine: header model, body acquisition, response
//! serialization, and the per-connection state machine.

use vstd::prelude::*;
use vstd::slice::slice_subrange;
use vstd::slice::slice_to_vec;

use crate::Handler;
use crate::Request;
use crate::Response;
use crate::url::is_digit;

verus! {

pub const LF: u8 = 10;

pub const CR: u8 = 13;

pub const SP: u8 = 32;

/// Capacity of the fixed receive buffer.
pub const BUFFER_SIZE: usize = 8192;

/// Absolute cap on a request body.
pub const MAX_POST_SIZE: usize = 65536;

#[derive(Copy, Clone, PartialEq, Eq, Structural, Debug)]
pub enum Protocol {
    Http10,
    Http11,
}

#[derive(Copy, Clone, PartialEq, Eq, Structural, Debug)]
pub enum Method {
    GET,
    POST,
}

#[derive(Copy, Clone, PartialEq, Eq, Structural, Debug)]
pub enum Connection {
    Close,
    KeepAlive,
}

/// A request body: absent, read into the fixed receive buffer, or
/// read into a separately allocated growable buffer.
pub enum PostData {
    Absent,
    Buf(Vec<u8>),
    Owned(Vec<u8>),
}

impl PostData {
    /// The body bytes, if any.
    pub open spec fn bytes(&self) -> Option<Seq<u8>> {
        match *self {
            PostData::Absent => None,
            PostData::Buf(ref v) => Some(v@),
            PostData::Owned(ref v) => Some(v@),
        }
    }
}

/// ASCII uppercase letters folded to lowercase; all else unchanged.
pub open spec fn lower_byte(b: u8) -> u8 {
    if 65 <= b && b <= 90 {
        (b + 32) as u8
    } else {
        b
    }
}

/// Byte sequences equal up to ASCII case.
pub open spec fn eq_ic(a: Seq<u8>, b: Seq<u8>) -> bool {
    a.len() == b.len() && forall|i: int| 0 <= i < a.len() ==> lower_byte(a[i]) == lower_byte(b[i])
}

fn eq_ignore_case(a: &[u8], b: &[u8]) -> (r: bool)
    ensures
        r == eq_ic(a@, b@),
{
    if a.len() != b.len() {
        return false;
    }
    let mut i: usize = 0;
    while i < a.len()
        invariant
            i <= a@.len(),
            a@.len() == b@.len(),
            forall|k: int| 0 <= k < i ==> lower_byte(a@[k]) == lower_byte(b@[k]),
        decreases a@.len() - i,
    {
        let x = a[i];
        let y = b[i];
        let xl = if 65 <= x && x <= 90 {
            x + 32
        } else {
            x
        };
        let yl = if 65 <= y && y <= 90 {
            y + 32
        } else {
            y
        };
        if xl != yl {
            return false;
        }
        i = i + 1;
    }
    true
}

/// First index in `s` that holds something other than a space;
/// `s.len()` when there is none.
pub open spec fn first_non_space(s: Seq<u8>) -> int
    decreases s.len(),
{
    if s.len() == 0 {
        0
    } else if s[0] != SP {
        0
    } else {
        1 + first_non_space(s.drop_first())
    }
}

/// Last index in `s` that holds something other than a space;
/// `-1` when there is none.
pub open spec fn last_non_space(s: Seq<u8>) -> int
    decreases s.len(),
{
    if s.len() == 0 {
        -1
    } else if s.last() != SP {
        s.len() - 1
    } else {
        last_non_space(s.drop_last())
    }
}

pub open spec fn has_non_space(s: Seq<u8>) -> bool {
    exists|i: int| 0 <= i < s.len() && s[i] != SP
}

/// The span between the first and last non-space byte; a sequence of
/// nothing but spaces is returned unchanged.
pub open spec fn trim_spec(s: Seq<u8>) -> Seq<u8> {
    if has_non_space(s) {
        s.subrange(first_non_space(s), last_non_space(s) + 1)
    } else {
        s
    }
}

proof fn lemma_first_non_space_at(s: Seq<u8>, i: int)
    requires
        0 <= i <= s.len(),
        forall|k: int| 0 <= k < i ==> s[k] == SP,
        i < s.len() ==> s[i] != SP,
    ensures
        first_non_space(s) == if i < s.len() {
            i
        } else {
            s.len() as int
        },
    decreases i,
{
    if i == 0 {
    } else {
        assert(s[0] == SP);
        let t = s.drop_first();
        assert(forall|k: int| 0 <= k < i - 1 ==> t[k] == s[k + 1] && s[k + 1] == SP);
        lemma_first_non_space_at(t, i - 1);
    }
}

proof fn lemma_last_non_space_at(s: Seq<u8>, j: int)
    requires
        -1 <= j < s.len(),
        forall|k: int| j < k < s.len() ==> s[k] == SP,
        j >= 0 ==> s[j] != SP,
    ensures
        last_non_space(s) == j,
    decreases s.len() - j,
{
    if j == s.len() - 1 {
    } else if s.len() == 0 {
    } else {
        assert(s.last() == SP);
        let t = s.drop_last();
        assert(forall|k: int| j < k < t.len() ==> t[k] == s[k] && s[k] == SP);
        lemma_last_non_space_at(t, j);
    }
}

/// Strips leading and trailing spaces, except that a value of nothing
/// but spaces passes through unchanged.
pub fn trim(s: &[u8]) -> (r: &[u8])
    ensures
        r@ == trim_spec(s@),
{
    let mut i: usize = 0;
    while i < s.len()
        invariant
            i <= s@.len(),
            forall|k: int| 0 <= k < i ==> s@[k] == SP,
        ensures
            i <= s@.len(),
            forall|k: int| 0 <= k < i ==> s@[k] == SP,
            i == s@.len() || s@[i as int] != SP,
        decreases s@.len() - i,
    {
        if s[i] != SP {
            break ;
        }
        i = i + 1;
    }
    if i == s.len() {
        proof {
            assert(!has_non_space(s@));
        }
        return s;
    }
    proof {
        lemma_first_non_space_at(s@, i as int);
        assert(has_non_space(s@));
    }
    let mut j: usize = s.len();
    while j > 0
        invariant
            i < j <= s@.len(),
            s@[i as int] != SP,
            forall|k: int| j <= k < s@.len() ==> s@[k] == SP,
        ensures
            i < j <= s@.len(),
            forall|k: int| j <= k < s@.len() ==> s@[k] == SP,
            s@[j - 1] != SP,
        decreases j,
    {
        if s[j - 1] != SP {
            break ;
        }
        proof {
            assert(j - 1 != i);
        }
        j = j - 1;
    }
    proof {
        lemma_last_non_space_at(s@, j - 1);
    }
    slice_subrange(s, i, j)
}

/// First index of `b` in `s`, as `Seq::index_of_first` computes it.
pub(crate) fn position_of(s: &[u8], b: u8) -> (r: Option<usize>)
    ensures
        r matches Some(i) ==> s@.index_of_first(b) == Some(i as int),
        r is None ==> s@.index_of_first(b) is None,
{
    let mut i: usize = 0;
    while i < s.len()
        invariant
            i <= s@.len(),
            forall|k: int| 0 <= k < i ==> s@[k] != b,
        decreases s@.len() - i,
    {
        if s[i] == b {
            proof {
                s@.index_of_first_ensures(b);
                assert(s@.contains(b));
            }
            return Some(i);
        }
        i = i + 1;
    }
    proof {
        s@.index_of_first_ensures(b);
    }
    None
}

/// Last index of `b` in `s`, as `Seq::index_of_last` computes it.
pub(crate) fn rposition_of(s: &[u8], b: u8) -> (r: Option<usize>)
    ensures
        r matches Some(i) ==> s@.index_of_last(b) == Some(i as int),
        r is None ==> s@.index_of_last(b) is None,
{
    let mut j: usize = s.len();
    while j > 0
        invariant
            j <= s@.len(),
            forall|k: int| j <= k < s@.len() ==> s@[k] != b,
        decreases j,
    {
        if s[j - 1] == b {
            proof {
                s@.index_of_last_ensures(b);
                assert(s@.contains(b));
            }
            return Some(j - 1);
        }
        j = j - 1;
    }
    proof {
        s@.index_of_last_ensures(b);
    }
    None
}

/// The header name `Connection`.
pub open spec fn connection_name() -> Seq<u8> {
    seq![67u8, 111u8, 110u8, 110u8, 101u8, 99u8, 116u8, 105u8, 111u8, 110u8]
}

/// The header name `Content-Length`.
pub open spec fn content_length_name() -> Seq<u8> {
    seq![67u8, 111u8, 110u8, 116u8, 101u8, 110u8, 116u8, 45u8, 76u8, 101u8, 110u8, 103u8, 116u8, 104u8]
}

pub open spec fn keep_alive_value() -> Seq<u8> {
    seq![107u8, 101u8, 101u8, 112u8, 45u8, 97u8, 108u8, 105u8, 118u8, 101u8]
}

pub open spec fn close_value() -> Seq<u8> {
    seq![99u8, 108u8, 111u8, 115u8, 101u8]
}

pub open spec fn http10_token() -> Seq<u8> {
    seq![72u8, 84u8, 84u8, 80u8, 47u8, 49u8, 46u8, 48u8]
}

pub open spec fn http11_token() -> Seq<u8> {
    seq![72u8, 84u8, 84u8, 80u8, 47u8, 49u8, 46u8, 49u8]
}

pub open spec fn get_token() -> Seq<u8> {
    seq![71u8, 69u8, 84u8]
}

pub open spec fn post_token() -> Seq<u8> {
    seq![80u8, 79u8, 83u8, 84u8]
}

/// Does this line carry the named header: the name, up to ASCII case,
/// followed immediately by a colon?
pub open spec fn name_matches(line: Seq<u8>, name: Seq<u8>) -> bool {
    line.len() > name.len() && eq_ic(line.subrange(0, name.len() as int), name) && line[name.len() as int]
        == 58
}

/// The trimmed value of the first line carrying the named header.
pub open spec fn find_header(lines: Seq<Seq<u8>>, name: Seq<u8>) -> Option<Seq<u8>>
    decreases lines.len(),
{
    if lines.len() == 0 {
        None
    } else if name_matches(lines[0], name) {
        Some(trim_spec(lines[0].subrange(name.len() as int + 1, lines[0].len() as int)))
    } else {
        find_header(lines.drop_first(), name)
    }
}

proof fn lemma_find_header_at(lines: Seq<Seq<u8>>, name: Seq<u8>, i: int)
    requires
        0 <= i <= lines.len(),
        forall|k: int| 0 <= k < i ==> !name_matches(lines[k], name),
        i < lines.len() ==> name_matches(lines[i], name),
    ensures
        find_header(lines, name) == if i < lines.len() {
            Some(trim_spec(lines[i].subrange(name.len() as int + 1, lines[i].len() as int)))
        } else {
            None::<Seq<u8>>
        },
    decreases i,
{
    if i == 0 {
    } else {
        let t = lines.drop_first();
        assert(forall|k: int| 0 <= k < i - 1 ==> t[k] == lines[k + 1] && !name_matches(
            lines[k + 1],
            name,
        ));
        lemma_find_header_at(t, name, i - 1);
    }
}

/// Value of a decimal string read left to right, skipping any byte
/// that is not an ASCII digit.
pub open spec fn digits_value(s: Seq<u8>) -> nat
    decreases s.len(),
{
    if s.len() == 0 {
        0
    } else {
        let prev = digits_value(s.drop_last());
        if is_digit(s.last()) {
            (prev * 10 + (s.last() - 48)) as nat
        } else {
            prev
        }
    }
}

/// Reads the digits of `v` left to right, skipping other bytes, and
/// saturates at `usize::MAX`.
fn digits_of(v: &[u8]) -> (r: usize)
    ensures
        digits_value(v@) <= usize::MAX ==> r == digits_value(v@),
        digits_value(v@) > usize::MAX ==> r == usize::MAX,
{
    let mut a: usize = 0;
    let mut i: usize = 0;
    while i < v.len()
        invariant
            i <= v@.len(),
            digits_value(v@.take(i as int)) <= usize::MAX ==> a == digits_value(v@.take(i as int)),
            digits_value(v@.take(i as int)) > usize::MAX ==> a == usize::MAX,
        decreases v@.len() - i,
    {
        let x = v[i];
        proof {
            assert(v@.take(i + 1).drop_last() =~= v@.take(i as int));
            assert(v@.take(i + 1).last() == v@[i as int]);
        }
        if 48 <= x && x <= 57 {
            let d = (x - 48) as usize;
            let ghost prev = digits_value(v@.take(i as int));
            proof {
                assert(prev * 10 + d >= prev) by (nonlinear_arith)
                    requires prev >= 0 && d >= 0;
            }
            a = match a.checked_mul(10) {
                Some(y) => match y.checked_add(d) {
                    Some(z) => z,
                    None => usize::MAX,
                },
                None => usize::MAX,
            };
        }
        i = i + 1;
    }
    proof {
        assert(v@.take(v@.len() as int) =~= v@);
    }
    a
}

/// The protocol of a request: named after the last space of line 0.
pub open spec fn protocol_spec(lines: Seq<Seq<u8>>) -> Option<Protocol> {
    if lines.len() == 0 {
        None
    } else {
        let line = lines[0];
        match line.index_of_last(SP) {
            Some(p) => {
                let token = line.subrange(p + 1, line.len() as int);
                if eq_ic(token, http10_token()) {
                    Some(Protocol::Http10)
                } else if eq_ic(token, http11_token()) {
                    Some(Protocol::Http11)
                } else {
                    None
                }
            },
            None => None,
        }
    }
}

/// The method of a request: named before the first space of line 0.
pub open spec fn method_spec(lines: Seq<Seq<u8>>) -> Option<Method> {
    if lines.len() == 0 {
        None
    } else {
        let line = lines[0];
        match line.index_of_first(SP) {
            Some(p) => {
                let token = line.subrange(0, p);
                if eq_ic(token, get_token()) {
                    Some(Method::GET)
                } else if eq_ic(token, post_token()) {
                    Some(Method::POST)
                } else {
                    None
                }
            },
            None => None,
        }
    }
}

/// The path of a request: the span of line 0 strictly between its
/// first and last space, absent when that span is empty.
pub open spec fn path_spec(lines: Seq<Seq<u8>>) -> Option<Seq<u8>> {
    if lines.len() == 0 {
        None
    } else {
        let line = lines[0];
        match (line.index_of_first(SP), line.index_of_last(SP)) {
            (Some(p1), Some(p2)) => if p1 + 1 < p2 {
                Some(line.subrange(p1 + 1, p2))
            } else {
                None
            },
            _ => None,
        }
    }
}

/// The connection directive carried by a `Connection` header.
pub open spec fn connection_spec(lines: Seq<Seq<u8>>) -> Option<Connection> {
    match find_header(lines, connection_name()) {
        Some(v) => if eq_ic(v, keep_alive_value()) {
            Some(Connection::KeepAlive)
        } else if eq_ic(v, close_value()) {
            Some(Connection::Close)
        } else {
            None
        },
        None => None,
    }
}

/// The declared body length carried by a `Content-Length` header.
pub open spec fn content_length_spec(lines: Seq<Seq<u8>>) -> Option<nat> {
    match find_header(lines, content_length_name()) {
        Some(v) => Some(digits_value(v)),
        None => None,
    }
}

fn push_bytes(out: &mut Vec<u8>, piece: &[u8])
    ensures
        final(out)@ == old(out)@ + piece@,
{
    let ghost orig = out@;
    let mut i: usize = 0;
    while i < piece.len()
        invariant
            i <= piece@.len(),
            out@ == orig + piece@.take(i as int),
        decreases piece@.len() - i,
    {
        out.push(piece[i]);
        proof {
            assert(orig + piece@.take(i + 1) =~= (orig + piece@.take(i as int)).push(
                piece@[i as int],
            ));
        }
        i = i + 1;
    }
    proof {
        assert(orig + piece@.take(piece@.len() as int) =~= orig + piece@);
    }
}

/// The decimal digits of `n`, most significant first.
pub open spec fn dec_digits(n: nat) -> Seq<u8>
    decreases n,
{
    if n < 10 {
        seq![(48 + n) as u8]
    } else {
        dec_digits(n / 10) + seq![(48 + n % 10) as u8]
    }
}

/// `n` in two digits, zero-padded, for values below 100.
pub open spec fn pad2(n: nat) -> Seq<u8> {
    if n < 10 {
        seq![48u8, (48 + n) as u8]
    } else {
        dec_digits(n)
    }
}

fn push_decimal(out: &mut Vec<u8>, n: usize)
    ensures
        final(out)@ == old(out)@ + dec_digits(n as nat),
    decreases n,
{
    if n < 10 {
        out.push(48 + n as u8);
        proof {
            assert(final(out)@ =~= old(out)@ + dec_digits(n as nat));
        }
    } else {
        proof {
            assert(n / 10 < n) by (nonlinear_arith)
                requires
                    n >= 10,
            ;
        }
        push_decimal(out, n / 10);
        out.push(48 + (n % 10) as u8);
        proof {
            assert(final(out)@ =~= old(out)@ + dec_digits(n as nat));
        }
    }
}

fn push_pad2(out: &mut Vec<u8>, n: usize)
    requires
        n < 100,
    ensures
        final(out)@ == old(out)@ + pad2(n as nat),
{
    if n < 10 {
        out.push(48);
        out.push(48 + n as u8);
        proof {
            assert(final(out)@ =~= old(out)@ + pad2(n as nat));
        }
    } else {
        push_decimal(out, n);
    }
}

/// Three-letter English weekday name, Sunday first.
pub open spec fn weekday_name(w: u8) -> Seq<u8>
    recommends
        w < 7,
{
    if w == 0 {
        seq![83u8, 117u8, 110u8]
    } else if w == 1 {
        seq![77u8, 111u8, 110u8]
    } else if w == 2 {
        seq![84u8, 117u8, 101u8]
    } else if w == 3 {
        seq![87u8, 101u8, 100u8]
    } else if w == 4 {
        seq![84u8, 104u8, 117u8]
    } else if w == 5 {
        seq![70u8, 114u8, 105u8]
    } else {
        seq![83u8, 97u8, 116u8]
    }
}

/// Three-letter English month name, January as 1.
pub open spec fn month_name(m: u8) -> Seq<u8>
    recommends
        1 <= m <= 12,
{
    if m == 1 {
        seq![74u8, 97u8, 110u8]
    } else if m == 2 {
        seq![70u8, 101u8, 98u8]
    } else if m == 3 {
        seq![77u8, 97u8, 114u8]
    } else if m == 4 {
        seq![65u8, 112u8, 114u8]
    } else if m == 5 {
        seq![77u8, 97u8, 121u8]
    } else if m == 6 {
        seq![74u8, 117u8, 110u8]
    } else if m == 7 {
        seq![74u8, 117u8, 108u8]
    } else if m == 8 {
        seq![65u8, 117u8, 103u8]
    } else if m == 9 {
        seq![83u8, 101u8, 112u8]
    } else if m == 10 {
        seq![79u8, 99u8, 116u8]
    } else if m == 11 {
        seq![78u8, 111u8, 118u8]
    } else {
        seq![68u8, 101u8, 99u8]
    }
}

/// A UTC wall-clock instant, broken into the fields the `Date` header
/// shows.  `wday` counts from Sunday as 0; `mon` counts January as 1.
pub struct HttpDate {
    pub wday: u8,
    pub mday: u8,
    pub mon: u8,
    pub year: u16,
    pub hour: u8,
    pub min: u8,
    pub sec: u8,
}

impl HttpDate {
    pub open spec fn wf(&self) -> bool {
        self.wday < 7 && 1 <= self.mday <= 31 && 1 <= self.mon <= 12 && self.year <= 9999
            && self.hour < 24 && self.min < 60 && self.sec < 60
    }

    /// Builds a well-formed date from clock fields, clamping a year
    /// outside `0..=9999` to the nearer bound.
    pub fn from_parts(wday: u8, mday: u8, mon: u8, year: i32, hour: u8, min: u8, sec: u8) -> (d:
        HttpDate)
        requires
            wday < 7,
            1 <= mday <= 31,
            1 <= mon <= 12,
            hour < 24,
            min < 60,
            sec < 60,
        ensures
            d.wf(),
            d.wday == wday && d.mday == mday && d.mon == mon && d.hour == hour && d.min == min
                && d.sec == sec,
            d.year == if year < 0 {
                0
            } else if year > 9999 {
                9999
            } else {
                year
            },
    {
        let y: u16 = if year < 0 {
            0
        } else if year > 9999 {
            9999
        } else {
            year as u16
        };
        HttpDate { wday, mday, mon, year: y, hour, min, sec }
    }
}

/// Relies on `time::OffsetDateTime::now_utc` and its accessors, whose
/// documentation bounds them: `number_days_from_sunday` in `0..=6`,
/// `day` in `1..=31`, `month` in `1..=12`, `hour` below 24, `minute`
/// and `second` below 60, and `year` within `-9999..=9999`.  The
/// conversion inside `now_utc` is documented to panic when the
/// instant cannot be represented, which is reachable only on a host
/// whose clock stands outside those years.
#[verifier::external_body]
fn now_utc_parts() -> (r: (u8, u8, u8, i32, u8, u8, u8))
    ensures
        r.0 < 7,
        1 <= r.1 <= 31,
        1 <= r.2 <= 12,
        -9999 <= r.3 <= 9999,
        r.4 < 24,
        r.5 < 60,
        r.6 < 60,
{
    let t = time::OffsetDateTime::now_utc();
    (
        t.weekday().number_days_from_sunday(),
        t.day(),
        t.month() as u8,
        t.year(),
        t.hour(),
        t.minute(),
        t.second(),
    )
}

/// The current UTC time, as the `Date` header will show it.
pub fn now_date() -> (d: HttpDate)
    ensures
        d.wf(),
{
    let (wday, mday, mon, year, hour, min, sec) = now_utc_parts();
    HttpDate::from_parts(wday, mday, mon, year, hour, min, sec)
}

/// The `Date` header line for an instant, in the fixed RFC-1123-like
/// form `Date: Sun, 5 Jan 2026 04:05:06 GMT` with zero-padded time.
pub open spec fn date_line_spec(d: HttpDate) -> Seq<u8>
    recommends
        d.wf(),
{
    seq![68u8, 97u8, 116u8, 101u8, 58u8, 32u8] + weekday_name(d.wday) + seq![44u8, 32u8]
        + dec_digits(d.mday as nat) + seq![32u8] + month_name(d.mon) + seq![32u8] + dec_digits(
        d.year as nat,
    ) + seq![32u8] + pad2(d.hour as nat) + seq![58u8] + pad2(d.min as nat) + seq![58u8] + pad2(
        d.sec as nat,
    ) + seq![32u8, 71u8, 77u8, 84u8, 13u8, 10u8]
}

fn push_weekday(out: &mut Vec<u8>, w: u8)
    requires
        w < 7,
    ensures
        final(out)@ == old(out)@ + weekday_name(w),
{
    let piece: Vec<u8> = if w == 0 {
        vec![83u8, 117u8, 110u8]
    } else if w == 1 {
        vec![77u8, 111u8, 110u8]
    } else if w == 2 {
        vec![84u8, 117u8, 101u8]
    } else if w == 3 {
        vec![87u8, 101u8, 100u8]
    } else if w == 4 {
        vec![84u8, 104u8, 117u8]
    } else if w == 5 {
        vec![70u8, 114u8, 105u8]
    } else {
        vec![83u8, 97u8, 116u8]
    };
    proof {
        assert(piece@ =~= weekday_name(w));
    }
    push_bytes(out, piece.as_slice());
}

fn push_month(out: &mut Vec<u8>, m: u8)
    requires
        1 <= m <= 12,
    ensures
        final(out)@ == old(out)@ + month_name(m),
{
    let piece: Vec<u8> = if m == 1 {
        vec![74u8, 97u8, 110u8]
    } else if m == 2 {
        vec![70u8, 101u8, 98u8]
    } else if m == 3 {
        vec![77u8, 97u8, 114u8]
    } else if m == 4 {
        vec![65u8, 112u8, 114u8]
    } else if m == 5 {
        vec![77u8, 97u8, 121u8]
    } else if m == 6 {
        vec![74u8, 117u8, 110u8]
    } else if m == 7 {
        vec![74u8, 117u8, 108u8]
    } else if m == 8 {
        vec![65u8, 117u8, 103u8]
    } else if m == 9 {
        vec![83u8, 101u8, 112u8]
    } else if m == 10 {
        vec![79u8, 99u8, 116u8]
    } else if m == 11 {
        vec![78u8, 111u8, 118u8]
    } else {
        vec![68u8, 101u8, 99u8]
    };
    proof {
        assert(piece@ =~= month_name(m));
    }
    push_bytes(out, piece.as_slice());
}

/// Writes the `Date` header line for `d`.
#[verifier::rlimit(100)]
pub fn format_date_line(out: &mut Vec<u8>, d: &HttpDate)
    requires
        d.wf(),
    ensures
        final(out)@ == old(out)@ + date_line_spec(*d),
{
    let ghost g0 = out@;
    let prefix: Vec<u8> = vec![68u8, 97u8, 116u8, 101u8, 58u8, 32u8];
    push_bytes(out, prefix.as_slice());
    proof {
        assert(prefix@ =~= seq![68u8, 97u8, 116u8, 101u8, 58u8, 32u8]);
    }
    let ghost g1 = g0 + seq![68u8, 97u8, 116u8, 101u8, 58u8, 32u8];
    push_weekday(out, d.wday);
    let comma: Vec<u8> = vec![44u8, 32u8];
    push_bytes(out, comma.as_slice());
    proof {
        assert(comma@ =~= seq![44u8, 32u8]);
    }
    let ghost g2 = g1 + weekday_name(d.wday) + seq![44u8, 32u8];
    proof {
        assert(out@ =~= g2);
    }
    push_decimal(out, d.mday as usize);
    out.push(32);
    let ghost g3 = g2 + dec_digits(d.mday as nat) + seq![32u8];
    proof {
        assert(out@ =~= g3);
    }
    push_month(out, d.mon);
    out.push(32);
    let ghost g4 = g3 + month_name(d.mon) + seq![32u8];
    proof {
        assert(out@ =~= g4);
    }
    push_decimal(out, d.year as usize);
    out.push(32);
    let ghost g5 = g4 + dec_digits(d.year as nat) + seq![32u8];
    proof {
        assert(out@ =~= g5);
    }
    push_pad2(out, d.hour as usize);
    out.push(58);
    let ghost g6 = g5 + pad2(d.hour as nat) + seq![58u8];
    proof {
        assert(out@ =~= g6);
    }
    push_pad2(out, d.min as usize);
    out.push(58);
    let ghost g7 = g6 + pad2(d.min as nat) + seq![58u8];
    proof {
        assert(out@ =~= g7);
    }
    push_pad2(out, d.sec as usize);
    let suffix: Vec<u8> = vec![32u8, 71u8, 77u8, 84u8, 13u8, 10u8];
    push_bytes(out, suffix.as_slice());
    proof {
        assert(suffix@ =~= seq![32u8, 71u8, 77u8, 84u8, 13u8, 10u8]);
        assert(out@ =~= g7 + pad2(d.sec as nat) + seq![32u8, 71u8, 77u8, 84u8, 13u8, 10u8]);
        assert(final(out)@ =~= old(out)@ + date_line_spec(*d));
    }
}

/// The protocol token mirrored into the status line; an unrecognized
/// request protocol falls back to `HTTP/1.1`.
pub open spec fn protocol_token(p: Option<Protocol>) -> Seq<u8> {
    match p {
        Some(Protocol::Http10) => http10_token(),
        _ => http11_token(),
    }
}

/// The status text: `200 OK`, or the generic error for anything else.
pub open spec fn status_text(status: u32) -> Seq<u8> {
    if status == 200 {
        seq![50u8, 48u8, 48u8, 32u8, 79u8, 75u8]
    } else {
        seq![
            53u8,
            48u8,
            48u8,
            32u8,
            73u8,
            110u8,
            116u8,
            101u8,
            114u8,
            110u8,
            97u8,
            108u8,
            32u8,
            83u8,
            101u8,
            114u8,
            118u8,
            101u8,
            114u8,
            32u8,
            69u8,
            114u8,
            114u8,
            111u8,
            114u8,
        ]
    }
}

/// The value written after `Connection: `.
pub open spec fn connection_token(c: Connection) -> Seq<u8> {
    match c {
        Connection::Close => close_value(),
        Connection::KeepAlive => keep_alive_value(),
    }
}

/// The fixed `Server` identification line.
pub open spec fn server_line() -> Seq<u8> {
    seq![
        83u8,
        101u8,
        114u8,
        118u8,
        101u8,
        114u8,
        58u8,
        32u8,
        65u8,
        107u8,
        97u8,
        115u8,
        97u8,
        98u8,
        105u8,
        32u8,
        48u8,
        46u8,
        49u8,
        46u8,
        48u8,
        13u8,
        10u8,
    ]
}

/// The `Content-Type` line sent whenever a body is present.
pub open spec fn content_type_line() -> Seq<u8> {
    seq![
        67u8,
        111u8,
        110u8,
        116u8,
        101u8,
        110u8,
        116u8,
        45u8,
        84u8,
        121u8,
        112u8,
        101u8,
        58u8,
        32u8,
        116u8,
        101u8,
        120u8,
        116u8,
        47u8,
        104u8,
        116u8,
        109u8,
        108u8,
        59u8,
        32u8,
        99u8,
        104u8,
        97u8,
        114u8,
        115u8,
        101u8,
        116u8,
        61u8,
        85u8,
        84u8,
        70u8,
        45u8,
        56u8,
        13u8,
        10u8,
    ]
}

/// The serialized reply: status line, `Date`, `Server`, the body
/// headers when a body is present, `Connection`, a blank line, and the
/// body bytes verbatim.
pub open spec fn serialize_spec(
    proto: Option<Protocol>,
    status: u32,
    content: Option<Seq<u8>>,
    conn: Connection,
    d: HttpDate,
) -> Seq<u8> {
    protocol_token(proto) + seq![32u8] + status_text(status) + seq![13u8, 10u8] + date_line_spec(d)
        + server_line() + (match content {
        Some(b) => content_type_line() + content_length_name() + seq![58u8, 32u8] + dec_digits(
            b.len(),
        ) + seq![13u8, 10u8],
        None => Seq::empty(),
    }) + connection_name() + seq![58u8, 32u8] + connection_token(conn) + seq![13u8, 10u8] + seq![
        13u8,
        10u8,
    ] + (match content {
        Some(b) => b,
        None => Seq::empty(),
    })
}

/// The fixed reply to a request the engine cannot serve:
/// `HTTP/1.1 501 Not Implemented` and a blank line, nothing more.
pub open spec fn error_501() -> Seq<u8> {
    seq![
        72u8,
        84u8,
        84u8,
        80u8,
        47u8,
        49u8,
        46u8,
        49u8,
        32u8,
        53u8,
        48u8,
        49u8,
        32u8,
        78u8,
        111u8,
        116u8,
        32u8,
        73u8,
        109u8,
        112u8,
        108u8,
        101u8,
        109u8,
        101u8,
        110u8,
        116u8,
        101u8,
        100u8,
        13u8,
        10u8,
        13u8,
        10u8,
    ]
}

/// The fixed `501 Not Implemented` reply as wire bytes.
pub fn error_response() -> (r: Vec<u8>)
    ensures
        r@ == error_501(),
{
    let r: Vec<u8> = vec![
        72u8,
        84u8,
        84u8,
        80u8,
        47u8,
        49u8,
        46u8,
        49u8,
        32u8,
        53u8,
        48u8,
        49u8,
        32u8,
        78u8,
        111u8,
        116u8,
        32u8,
        73u8,
        109u8,
        112u8,
        108u8,
        101u8,
        109u8,
        101u8,
        110u8,
        116u8,
        101u8,
        100u8,
        13u8,
        10u8,
        13u8,
        10u8,
    ];
    proof {
        assert(r@ =~= error_501());
    }
    r
}

/// Serializes one reply for the wire, exactly as `serialize_spec`
/// lays it out.
#[verifier::rlimit(50)]
pub fn serialize_response(
    proto: Option<Protocol>,
    status: u32,
    content: &Option<Vec<u8>>,
    conn: Connection,
    d: &HttpDate,
) -> (r: Vec<u8>)
    requires
        d.wf(),
    ensures
        r@ == serialize_spec(proto, status, content.deep_view(), conn, *d),
{
    let mut out: Vec<u8> = Vec::new();
    let proto_tok: Vec<u8> = match proto {
        Some(Protocol::Http10) => vec![72u8, 84u8, 84u8, 80u8, 47u8, 49u8, 46u8, 48u8],
        _ => vec![72u8, 84u8, 84u8, 80u8, 47u8, 49u8, 46u8, 49u8],
    };
    proof {
        assert(proto_tok@ =~= protocol_token(proto));
    }
    push_bytes(&mut out, proto_tok.as_slice());
    out.push(32);
    let text: Vec<u8> = if status == 200 {
        vec![50u8, 48u8, 48u8, 32u8, 79u8, 75u8]
    } else {
        vec![
            53u8,
            48u8,
            48u8,
            32u8,
            73u8,
            110u8,
            116u8,
            101u8,
            114u8,
            110u8,
            97u8,
            108u8,
            32u8,
            83u8,
            101u8,
            114u8,
            118u8,
            101u8,
            114u8,
            32u8,
            69u8,
            114u8,
            114u8,
            111u8,
            114u8,
        ]
    };
    proof {
        assert(text@ =~= status_text(status));
    }
    push_bytes(&mut out, text.as_slice());
    out.push(13);
    out.push(10);
    let ghost g1 = protocol_token(proto) + seq![32u8] + status_text(status) + seq![13u8, 10u8];
    proof {
        assert(out@ =~= g1);
    }
    format_date_line(&mut out, d);
    let server: Vec<u8> = vec![
        83u8,
        101u8,
        114u8,
        118u8,
        101u8,
        114u8,
        58u8,
        32u8,
        65u8,
        107u8,
        97u8,
        115u8,
        97u8,
        98u8,
        105u8,
        32u8,
        48u8,
        46u8,
        49u8,
        46u8,
        48u8,
        13u8,
        10u8,
    ];
    proof {
        assert(server@ =~= server_line());
    }
    push_bytes(&mut out, server.as_slice());
    let ghost g2 = g1 + date_line_spec(*d) + server_line();
    proof {
        assert(out@ =~= g2);
    }
    if let Some(body) = content {
        let ctype: Vec<u8> = vec![
            67u8,
            111u8,
            110u8,
            116u8,
            101u8,
            110u8,
            116u8,
            45u8,
            84u8,
            121u8,
            112u8,
            101u8,
            58u8,
            32u8,
            116u8,
            101u8,
            120u8,
            116u8,
            47u8,
            104u8,
            116u8,
            109u8,
            108u8,
            59u8,
            32u8,
            99u8,
            104u8,
            97u8,
            114u8,
            115u8,
            101u8,
            116u8,
            61u8,
            85u8,
            84u8,
            70u8,
            45u8,
            56u8,
            13u8,
            10u8,
        ];
        proof {
            assert(ctype@ =~= content_type_line());
        }
        push_bytes(&mut out, ctype.as_slice());
        let clen: Vec<u8> = vec![
            67u8,
            111u8,
            110u8,
            116u8,
            101u8,
            110u8,
            116u8,
            45u8,
            76u8,
            101u8,
            110u8,
            103u8,
            116u8,
            104u8,
            58u8,
            32u8,
        ];
        proof {
            assert(clen@ =~= content_length_name() + seq![58u8, 32u8]);
        }
        push_bytes(&mut out, clen.as_slice());
        push_decimal(&mut out, body.len());
        out.push(13);
        out.push(10);
        proof {
            assert(out@ =~= g2 + (content_type_line() + content_length_name() + seq![58u8, 32u8]
                + dec_digits(body@.len()) + seq![13u8, 10u8]));
        }
    }
    let ghost g3 = g2 + (match content.deep_view() {
        Some(b) => content_type_line() + content_length_name() + seq![58u8, 32u8] + dec_digits(
            b.len(),
        ) + seq![13u8, 10u8],
        None => Seq::empty(),
    });
    proof {
        assert(out@ =~= g3);
    }
    let cname: Vec<u8> = vec![
        67u8,
        111u8,
        110u8,
        110u8,
        101u8,
        99u8,
        116u8,
        105u8,
        111u8,
        110u8,
        58u8,
        32u8,
    ];
    proof {
        assert(cname@ =~= connection_name() + seq![58u8, 32u8]);
    }
    push_bytes(&mut out, cname.as_slice());
    let ctok: Vec<u8> = match conn {
        Connection::Close => vec![99u8, 108u8, 111u8, 115u8, 101u8],
        Connection::KeepAlive => vec![
            107u8,
            101u8,
            101u8,
            112u8,
            45u8,
            97u8,
            108u8,
            105u8,
            118u8,
            101u8,
        ],
    };
    proof {
        assert(ctok@ =~= connection_token(conn));
    }
    push_bytes(&mut out, ctok.as_slice());
    out.push(13);
    out.push(10);
    out.push(13);
    out.push(10);
    let ghost g4 = g3 + connection_name() + seq![58u8, 32u8] + connection_token(conn) + seq![
        13u8,
        10u8,
    ] + seq![13u8, 10u8];
    proof {
        assert(out@ =~= g4);
    }
    if let Some(body) = content {
        push_bytes(&mut out, body.as_slice());
    }
    proof {
        assert(out@ =~= serialize_spec(proto, status, content.deep_view(), conn, *d));
    }
    out
}

/// The raw header lines of one request; line 0 is the request line.
pub struct Header {
    pub lines: Vec<Vec<u8>>,
}

impl View for Header {
    type V = Seq<Seq<u8>>;

    open spec fn view(&self) -> Seq<Seq<u8>> {
        self.lines.deep_view()
    }
}

impl Header {
    /// The trimmed value of the first line whose name-prefix matches
    /// `name` up to ASCII case, followed by a colon.
    pub fn get_string(&self, name: &[u8]) -> (r: Option<&[u8]>)
        ensures
            r matches Some(v) ==> find_header(self@, name@) == Some(v@),
            r is None ==> find_header(self@, name@) is None,
    {
        let mut i: usize = 0;
        while i < self.lines.len()
            invariant
                i <= self.lines@.len(),
                self@.len() == self.lines@.len(),
                forall|k: int| 0 <= k < i ==> !name_matches(self@[k], name@),
            decreases self.lines@.len() - i,
        {
            let line = &self.lines[i];
            proof {
                assert(self@[i as int] =~= line@);
            }
            if line.len() > name.len() {
                let prefix = slice_subrange(line.as_slice(), 0, name.len());
                if eq_ignore_case(prefix, name) && line[name.len()] == 58 {
                    proof {
                        lemma_find_header_at(self@, name@, i as int);
                    }
                    let rest = slice_subrange(line.as_slice(), name.len() + 1, line.len());
                    return Some(trim(rest));
                }
            }
            i = i + 1;
        }
        proof {
            lemma_find_header_at(self@, name@, self@.len() as int);
        }
        None
    }

    /// The protocol named after the last space of the request line.
    pub fn protocol(&self) -> (r: Option<Protocol>)
        ensures
            r == protocol_spec(self@),
    {
        if self.lines.len() == 0 {
            return None;
        }
        let line = &self.lines[0];
        proof {
            assert(self@[0] =~= line@);
        }
        let n = line.len();
        match rposition_of(line.as_slice(), SP) {
            Some(pos) => {
                proof {
                    line@.index_of_last_ensures(SP);
                }
                let token = slice_subrange(line.as_slice(), pos + 1, n);
                let pat10: Vec<u8> = vec![72u8, 84u8, 84u8, 80u8, 47u8, 49u8, 46u8, 48u8];
                let pat11: Vec<u8> = vec![72u8, 84u8, 84u8, 80u8, 47u8, 49u8, 46u8, 49u8];
                proof {
                    assert(pat10@ =~= http10_token());
                    assert(pat11@ =~= http11_token());
                }
                if eq_ignore_case(token, pat10.as_slice()) {
                    Some(Protocol::Http10)
                } else if eq_ignore_case(token, pat11.as_slice()) {
                    Some(Protocol::Http11)
                } else {
                    None
                }
            },
            None => None,
        }
    }

    /// The method named before the first space of the request line.
    pub fn method(&self) -> (r: Option<Method>)
        ensures
            r == method_spec(self@),
    {
        if self.lines.len() == 0 {
            return None;
        }
        let line = &self.lines[0];
        proof {
            assert(self@[0] =~= line@);
        }
        match position_of(line.as_slice(), SP) {
            Some(pos) => {
                proof {
                    line@.index_of_first_ensures(SP);
                }
                let token = slice_subrange(line.as_slice(), 0, pos);
                let get_pat: Vec<u8> = vec![71u8, 69u8, 84u8];
                let post_pat: Vec<u8> = vec![80u8, 79u8, 83u8, 84u8];
                proof {
                    assert(get_pat@ =~= get_token());
                    assert(post_pat@ =~= post_token());
                }
                if eq_ignore_case(token, get_pat.as_slice()) {
                    Some(Method::GET)
                } else if eq_ignore_case(token, post_pat.as_slice()) {
                    Some(Method::POST)
                } else {
                    None
                }
            },
            None => None,
        }
    }

    /// The span of the request line between its first and last space.
    pub fn path(&self) -> (r: Option<&[u8]>)
        ensures
            r matches Some(p) ==> path_spec(self@) == Some(p@),
            r is None ==> path_spec(self@) is None,
    {
        if self.lines.len() == 0 {
            return None;
        }
        let line = &self.lines[0];
        proof {
            assert(self@[0] =~= line@);
        }
        let n = line.len();
        if let Some(pos1) = position_of(line.as_slice(), SP) {
            if let Some(pos2) = rposition_of(line.as_slice(), SP) {
                proof {
                    line@.index_of_first_ensures(SP);
                    line@.index_of_last_ensures(SP);
                }
                if pos1 + 1 < pos2 {
                    return Some(slice_subrange(line.as_slice(), pos1 + 1, pos2));
                }
            }
        }
        None
    }

    /// The connection directive, matched case-insensitively against
    /// `keep-alive` and `close`.
    pub fn connection(&self) -> (r: Option<Connection>)
        ensures
            r == connection_spec(self@),
    {
        let name: Vec<u8> = vec![67u8, 111u8, 110u8, 110u8, 101u8, 99u8, 116u8, 105u8, 111u8, 110u8];
        proof {
            assert(name@ =~= connection_name());
        }
        match self.get_string(name.as_slice()) {
            Some(value) => {
                let ka: Vec<u8> = vec![107u8, 101u8, 101u8, 112u8, 45u8, 97u8, 108u8, 105u8, 118u8, 101u8];
                let cl: Vec<u8> = vec![99u8, 108u8, 111u8, 115u8, 101u8];
                proof {
                    assert(ka@ =~= keep_alive_value());
                    assert(cl@ =~= close_value());
                }
                if eq_ignore_case(value, ka.as_slice()) {
                    Some(Connection::KeepAlive)
                } else if eq_ignore_case(value, cl.as_slice()) {
                    Some(Connection::Close)
                } else {
                    None
                }
            },
            None => None,
        }
    }

    /// The `Content-Length` value, read as `get_number` reads it.
    pub fn content_length(&self) -> (r: Option<usize>)
        ensures
            r is Some <==> content_length_spec(self@) is Some,
            r matches Some(n) ==> {
                let d = content_length_spec(self@).unwrap();
                (d <= usize::MAX ==> n == d) && (d > usize::MAX ==> n == usize::MAX)
            },
    {
        let name: Vec<u8> = vec![
            67u8,
            111u8,
            110u8,
            116u8,
            101u8,
            110u8,
            116u8,
            45u8,
            76u8,
            101u8,
            110u8,
            103u8,
            116u8,
            104u8,
        ];
        proof {
            assert(name@ =~= content_length_name());
        }
        self.get_number(name.as_slice())
    }

    /// The numeric value of the named header, read leniently: bytes
    /// other than ASCII digits are skipped, and the value saturates at
    /// `usize::MAX`.
    pub fn get_number(&self, name: &[u8]) -> (r: Option<usize>)
        ensures
            r is Some <==> find_header(self@, name@) is Some,
            r matches Some(n) ==> {
                let d = digits_value(find_header(self@, name@).unwrap());
                (d <= usize::MAX ==> n == d) && (d > usize::MAX ==> n == usize::MAX)
            },
    {
        match self.get_string(name) {
            Some(value) => Some(digits_of(value)),
            None => None,
        }
    }
}

/// A byte vector's deep view is its view.
pub broadcast proof fn lemma_bytes_deep_view(v: Vec<u8>)
    ensures
        #[trigger] v.deep_view() == v@,
{
    assert(v.deep_view() =~= v@);
}

/// A well-formed `GET` request line whose path holds no space parses
/// into exactly its three parts: the method, the path between the two
/// spaces, and the protocol after the last space.
pub proof fn lemma_request_line_parse(p: Seq<u8>)
    requires
        p.len() > 0,
        forall|i: int| 0 <= i < p.len() ==> p[i] != SP,
    ensures
        method_spec(seq![get_token() + seq![SP] + p + seq![SP] + http11_token()]) == Some(
            Method::GET,
        ),
        protocol_spec(seq![get_token() + seq![SP] + p + seq![SP] + http11_token()]) == Some(
            Protocol::Http11,
        ),
        path_spec(seq![get_token() + seq![SP] + p + seq![SP] + http11_token()]) == Some(p),
{
    let line = get_token() + seq![SP] + p + seq![SP] + http11_token();
    let n = p.len() as int;
    assert(line.len() == n + 13);
    assert(line[0] == 71 && line[1] == 69 && line[2] == 84);
    assert(line[3] == SP);
    assert(forall|i: int| 4 <= i < 4 + n ==> line[i] == p[i - 4] && p[i - 4] != SP);
    assert(line[4 + n] == SP);
    assert(forall|i: int|
        4 + n < i < line.len() ==> line[i] == http11_token()[i - (5 + n)] && line[i] != SP);
    line.index_of_first_ensures(SP);
    let p1 = line.index_of_first(SP).unwrap();
    assert(line.contains(SP));
    assert(p1 <= 3);
    assert(p1 == 3);
    line.index_of_last_ensures(SP);
    let p2 = line.index_of_last(SP).unwrap();
    assert(p2 >= 4 + n);
    assert(p2 == 4 + n);
    assert(line.subrange(0, 3) =~= get_token());
    assert(eq_ic(line.subrange(0, 3), get_token()));
    let tok = line.subrange(p2 + 1, line.len() as int);
    assert(tok =~= http11_token());
    assert(eq_ic(tok, http11_token()));
    assert(lower_byte(tok[7]) == 49 && lower_byte(http10_token()[7]) == 48);
    assert(!eq_ic(tok, http10_token()));
    assert(line.subrange(p1 + 1, p2) =~= p);
}

/// `eq_ic` carries through `drop_first` and `drop_last`.
proof fn lemma_eq_ic_drops(a: Seq<u8>, b: Seq<u8>)
    requires
        eq_ic(a, b),
        a.len() > 0,
    ensures
        eq_ic(a.drop_first(), b.drop_first()),
        eq_ic(a.drop_last(), b.drop_last()),
{
    assert(forall|i: int|
        0 <= i < a.len() - 1 ==> a.drop_first()[i] == a[i + 1] && b.drop_first()[i] == b[i + 1]);
    assert(forall|i: int|
        0 <= i < a.len() - 1 ==> a.drop_last()[i] == a[i] && b.drop_last()[i] == b[i]);
}

/// Where some byte is not a space, the first such index is in range,
/// holds a non-space, and everything before it is spaces.
proof fn lemma_first_bounds(s: Seq<u8>)
    requires
        has_non_space(s),
    ensures
        0 <= first_non_space(s) < s.len(),
        s[first_non_space(s)] != SP,
        forall|k: int| 0 <= k < first_non_space(s) ==> s[k] == SP,
    decreases s.len(),
{
    if s.len() > 0 && s[0] == SP {
        let t = s.drop_first();
        assert(has_non_space(t)) by {
            let i = choose|i: int| 0 <= i < s.len() && s[i] != SP;
            assert(t[i - 1] != SP);
        }
        lemma_first_bounds(t);
        assert(forall|k: int| 0 <= k < t.len() ==> t[k] == s[k + 1]);
        assert forall|k: int| 0 <= k < first_non_space(s) implies s[k] == SP by {
            if k > 0 {
                assert(t[k - 1] == SP);
            }
        }
    }
}

/// Where some byte is not a space, the last such index is in range,
/// holds a non-space, and everything after it is spaces.
proof fn lemma_last_bounds(s: Seq<u8>)
    requires
        has_non_space(s),
    ensures
        0 <= last_non_space(s) < s.len(),
        s[last_non_space(s)] != SP,
        forall|k: int| last_non_space(s) < k < s.len() ==> s[k] == SP,
    decreases s.len(),
{
    if s.len() > 0 && s.last() == SP {
        let t = s.drop_last();
        assert(has_non_space(t)) by {
            let i = choose|i: int| 0 <= i < s.len() && s[i] != SP;
            assert(t[i] != SP);
        }
        lemma_last_bounds(t);
        assert(forall|k: int| 0 <= k < t.len() ==> t[k] == s[k]);
    }
}

/// Bytes equal up to case are spaces together, so trimming two such
/// sequences keeps them equal up to case.
proof fn lemma_trim_case(a: Seq<u8>, b: Seq<u8>)
    requires
        eq_ic(a, b),
    ensures
        first_non_space(a) == first_non_space(b),
        last_non_space(a) == last_non_space(b),
        has_non_space(a) == has_non_space(b),
        eq_ic(trim_spec(a), trim_spec(b)),
    decreases a.len(),
{
    assert(forall|i: int| 0 <= i < a.len() ==> (a[i] == SP <==> b[i] == SP)) by {
        assert(forall|i: int| 0 <= i < a.len() ==> lower_byte(a[i]) == lower_byte(b[i]));
    }
    if a.len() > 0 {
        lemma_eq_ic_drops(a, b);
        lemma_trim_case(a.drop_first(), b.drop_first());
        lemma_trim_case(a.drop_last(), b.drop_last());
    }
    assert(has_non_space(a) == has_non_space(b)) by {
        if has_non_space(a) {
            let i = choose|i: int| 0 <= i < a.len() && a[i] != SP;
            assert(b[i] != SP);
        }
        if has_non_space(b) {
            let i = choose|i: int| 0 <= i < b.len() && b[i] != SP;
            assert(a[i] != SP);
        }
    }
    if has_non_space(a) {
        lemma_first_bounds(a);
        lemma_last_bounds(a);
        let f = first_non_space(a);
        let l = last_non_space(a);
        assert(f <= l) by {
            assert(a[l] != SP);
        }
        let ta = trim_spec(a);
        let tb = trim_spec(b);
        assert(ta.len() == tb.len());
        assert(forall|i: int|
            0 <= i < ta.len() ==> ta[i] == a[f + i] && tb[i] == b[f + i] && lower_byte(a[f + i])
                == lower_byte(b[f + i]));
        assert(eq_ic(ta, tb));
    } else {
        assert(eq_ic(trim_spec(a), trim_spec(b)));
    }
}

/// `find_header` finds the same header, with values equal up to
/// case, in two line sets equal up to case.
proof fn lemma_find_header_case(lines1: Seq<Seq<u8>>, lines2: Seq<Seq<u8>>, name: Seq<u8>)
    requires
        lines1.len() == lines2.len(),
        forall|i: int| 0 <= i < lines1.len() ==> eq_ic(lines1[i], lines2[i]),
    ensures
        find_header(lines1, name) is Some <==> find_header(lines2, name) is Some,
        find_header(lines1, name) matches Some(v1) ==> (find_header(lines2, name) matches Some(v2)
            && eq_ic(v1, v2)),
    decreases lines1.len(),
{
    if lines1.len() > 0 {
        let l1 = lines1[0];
        let l2 = lines2[0];
        assert(eq_ic(l1, l2));
        assert(name_matches(l1, name) == name_matches(l2, name)) by {
            if l1.len() > name.len() {
                assert(forall|i: int|
                    0 <= i < name.len() ==> l1.subrange(0, name.len() as int)[i] == l1[i]
                        && l2.subrange(0, name.len() as int)[i] == l2[i]);
                assert(eq_ic(l1.subrange(0, name.len() as int), name) == eq_ic(
                    l2.subrange(0, name.len() as int),
                    name,
                ));
                assert(lower_byte(l1[name.len() as int]) == lower_byte(l2[name.len() as int]));
                assert(l1[name.len() as int] == 58 <==> l2[name.len() as int] == 58);
            }
        }
        if name_matches(l1, name) {
            let v1 = l1.subrange(name.len() as int + 1, l1.len() as int);
            let v2 = l2.subrange(name.len() as int + 1, l2.len() as int);
            assert(eq_ic(v1, v2)) by {
                assert(forall|i: int|
                    0 <= i < v1.len() ==> v1[i] == l1[name.len() + 1 + i] && v2[i] == l2[name.len()
                        + 1 + i]);
            }
            lemma_trim_case(v1, v2);
        } else {
            assert(forall|i: int|
                0 <= i < lines1.len() - 1 ==> lines1.drop_first()[i] == lines1[i + 1]
                    && lines2.drop_first()[i] == lines2[i + 1]);
            lemma_find_header_case(lines1.drop_first(), lines2.drop_first(), name);
        }
    }
}

/// The connection directive reads the same from two header line sets
/// that differ only in ASCII case.
pub proof fn lemma_connection_case_insensitive(lines1: Seq<Seq<u8>>, lines2: Seq<Seq<u8>>)
    requires
        lines1.len() == lines2.len(),
        forall|i: int| 0 <= i < lines1.len() ==> eq_ic(lines1[i], lines2[i]),
    ensures
        connection_spec(lines1) == connection_spec(lines2),
{
    lemma_find_header_case(lines1, lines2, connection_name());
    if find_header(lines1, connection_name()) is Some {
        let v1 = find_header(lines1, connection_name()).unwrap();
        let v2 = find_header(lines2, connection_name()).unwrap();
        assert(eq_ic(v1, v2));
        assert(eq_ic(v1, keep_alive_value()) == eq_ic(v2, keep_alive_value()));
        assert(eq_ic(v1, close_value()) == eq_ic(v2, close_value()));
    }
}

/// Splits off the first logical line: everything before the first
/// line feed, with one carriage return before it stripped, together
/// with the bytes after the line feed.
pub open spec fn line_split(buf: Seq<u8>) -> Option<(Seq<u8>, Seq<u8>)> {
    match buf.index_of_first(LF) {
        Some(pos) => {
            let eol = if pos > 0 && buf[pos - 1] == CR {
                pos - 1
            } else {
                pos
            };
            Some((buf.subrange(0, eol), buf.subrange(pos + 1, buf.len() as int)))
        },
        None => None,
    }
}

/// All complete lines of `buf` in order, and the trailing bytes that
/// no line feed terminates yet.
pub open spec fn split_lines(buf: Seq<u8>) -> (Seq<Seq<u8>>, Seq<u8>)
    decreases buf.len(),
    via split_lines_dec
{
    match line_split(buf) {
        Some(pair) => {
            let rec = split_lines(pair.1);
            (seq![pair.0] + rec.0, rec.1)
        },
        None => (Seq::empty(), buf),
    }
}

#[via_fn]
proof fn split_lines_dec(buf: Seq<u8>) {
    buf.index_of_first_ensures(LF);
}

/// The header section of `buf`, when an empty line terminates it:
/// the lines before the terminator, and the raw bytes after it.
pub open spec fn header_split(buf: Seq<u8>) -> Option<(Seq<Seq<u8>>, Seq<u8>)>
    decreases buf.len(),
    via header_split_dec
{
    match line_split(buf) {
        Some(pair) => if pair.0.len() == 0 {
            Some((Seq::empty(), pair.1))
        } else {
            match header_split(pair.1) {
                Some(rec) => Some((seq![pair.0] + rec.0, rec.1)),
                None => None,
            }
        },
        None => None,
    }
}

#[via_fn]
proof fn header_split_dec(buf: Seq<u8>) {
    buf.index_of_first_ensures(LF);
}

/// What the engine does next with one connection.
pub enum Step {
    /// Read more bytes from the transport and call `advance` again;
    /// an empty chunk means the peer closed its write side.
    NeedData,
    /// A complete request: hand it to the application and give its
    /// response to `respond`.
    Dispatch(Request),
    /// Write these bytes; when the flag is set, then shut the
    /// connection down, else await the next request.
    Send(Vec<u8>, bool),
    /// Shut the connection down without writing anything.
    Close,
}

/// The abstract outcome of feeding one chunk to the engine.
pub enum Decision {
    /// Headers are still incomplete: these are the collected lines
    /// and the bytes of the unfinished line.
    MoreHeaders(Seq<Seq<u8>>, Seq<u8>),
    /// A body of the given declared length is still incomplete:
    /// these are the header lines and the body bytes so far.
    MoreBody(Seq<Seq<u8>>, nat, Seq<u8>),
    /// The peer closed before a request line arrived.
    CloseSilently,
    /// The request cannot be served: reply `501` and close.
    Reject,
    /// A complete request with these header lines, and its body when
    /// one was declared: hand it out for dispatch.
    Serve(Seq<Seq<u8>>, Option<Seq<u8>>),
}

/// Validation of a complete header section, as the engine rules on
/// it: unrecognized method or protocol, and for `POST` a missing or
/// oversized `Content-Length`, are rejected; a `POST` whose body is
/// not fully buffered waits for more; anything else is served.
pub open spec fn validate(all_lines: Seq<Seq<u8>>, body: Option<Seq<u8>>) -> Decision {
    if method_spec(all_lines) is None || protocol_spec(all_lines) is None {
        Decision::Reject
    } else if method_spec(all_lines) == Some(Method::POST) {
        match content_length_spec(all_lines) {
            Some(l) => if l > MAX_POST_SIZE {
                Decision::Reject
            } else {
                let avail = match body {
                    Some(b) => b,
                    None => Seq::empty(),
                };
                if avail.len() >= l {
                    Decision::Serve(all_lines, Some(avail.take(l as int)))
                } else if body is None {
                    Decision::Reject
                } else {
                    Decision::MoreBody(all_lines, l, avail)
                }
            },
            None => Decision::Reject,
        }
    } else {
        Decision::Serve(all_lines, None)
    }
}

/// The engine's ruling while collecting headers, over the lines
/// already collected, the buffered bytes, and one new chunk.  An
/// empty chunk is the end of the stream: headers end there, and a
/// connection with no lines at all closes silently.  A headerless
/// line longer than the receive buffer fails the connection.
pub open spec fn headers_decision(
    lines: Seq<Seq<u8>>,
    buffer: Seq<u8>,
    input: Seq<u8>,
) -> Decision {
    let combined = buffer + input;
    match header_split(combined) {
        Some(pair) => validate(lines + pair.0, Some(pair.1)),
        None => {
            let rec = split_lines(combined);
            if input.len() == 0 {
                if lines.len() + rec.0.len() == 0 {
                    Decision::CloseSilently
                } else {
                    validate(lines + rec.0, None)
                }
            } else if rec.1.len() >= BUFFER_SIZE {
                Decision::Reject
            } else {
                Decision::MoreHeaders(lines + rec.0, rec.1)
            }
        },
    }
}

/// The engine's ruling while filling a body: the end of the stream
/// before the declared length fails the connection; otherwise the
/// request is served once the length is reached, taking exactly that
/// many bytes.
pub open spec fn body_decision(
    lines: Seq<Seq<u8>>,
    length: nat,
    data: Seq<u8>,
    input: Seq<u8>,
) -> Decision {
    if input.len() == 0 {
        Decision::Reject
    } else {
        let d2 = data + input;
        if d2.len() >= length {
            Decision::Serve(lines, Some(d2.take(length as int)))
        } else {
            Decision::MoreBody(lines, length, d2)
        }
    }
}

/// The byte view of an optional byte vector.
pub open spec fn opt_view(o: Option<Vec<u8>>) -> Option<Seq<u8>> {
    match o {
        Some(v) => Some(v@),
        None => None,
    }
}

/// `bytes` is the reply the engine serializes for `resp` at some
/// well-formed instant, with `close` mirroring `resp`'s directive.
/// Only the instant is existential: the clock cannot be pinned.
pub open spec fn reply_for(
    bytes: Seq<u8>,
    proto: Option<Protocol>,
    resp: Response,
    close: bool,
) -> bool {
    exists|d: HttpDate| is_serialized_reply(bytes, proto, resp, d, close)
}

/// Two optional peer addresses carry the same text.
pub open spec fn peer_match(a: Option<String>, b: Option<String>) -> bool {
    match (a, b) {
        (Some(x), Some(y)) => x@ == y@,
        (None, None) => true,
        _ => false,
    }
}

/// `bytes` is a reply that `serialize_spec` lays out for `resp` at
/// instant `d`, and `close` mirrors the response's directive.
pub open spec fn is_serialized_reply(
    bytes: Seq<u8>,
    proto: Option<Protocol>,
    resp: Response,
    d: HttpDate,
    close: bool,
) -> bool {
    d.wf() && bytes == serialize_spec(proto, resp.status, resp.content.deep_view(), resp.connection, d)
        && close == (resp.connection == Connection::Close)
}

/// Where the engine stands on one connection: collecting header
/// lines, filling a declared body, or awaiting the response to a
/// request it handed out, with the request's protocol remembered for
/// the reply's status line.
pub enum Phase {
    Headers,
    Body { length: usize, data: Vec<u8> },
    Respond { proto: Option<Protocol> },
}

/// The per-connection engine: owns the application handler, the
/// receive buffer, and the parsing state.
pub struct HttpHandler<T> {
    pub handler: T,
    pub peer: Option<String>,
    pub buffer: Vec<u8>,
    pub lines: Vec<Vec<u8>>,
    pub phase: Phase,
}

/// The engine is back at its initial parsing state.
pub open spec fn reset_state<T>(st: HttpHandler<T>) -> bool {
    st.phase is Headers && st.buffer@.len() == 0 && st.lines@.len() == 0
}

/// How one `Step` and the state after it realize a `Decision`.
pub open spec fn step_matches<T>(dec: Decision, r: Step, st: HttpHandler<T>) -> bool {
    match dec {
        Decision::MoreHeaders(ls, buf) => r is NeedData && st.phase is Headers
            && st.lines.deep_view() == ls && st.buffer@ == buf,
        Decision::MoreBody(ls, l, d) => r is NeedData && st.lines.deep_view() == ls && (
        st.phase matches Phase::Body { length, data } && length == l && data@ == d)
            && st.buffer@.len() == 0,
        Decision::CloseSilently => r is Close && reset_state(st),
        Decision::Reject => (r matches Step::Send(bytes, close) && bytes@ == error_501() && close)
            && reset_state(st),
        Decision::Serve(ls, body) => r matches Step::Dispatch(req) && req.header@ == ls && (
        match body {
            Some(b) => req.post_data.bytes() == Some(b) && (b.len() <= BUFFER_SIZE
                ==> req.post_data is Buf) && (b.len() > BUFFER_SIZE ==> req.post_data is Owned),
            None => req.post_data is Absent,
        }) && peer_match(req.peer_addr, st.peer) && st.buffer@.len() == 0 && st.lines@.len() == 0
            && (st.phase matches Phase::Respond { proto } && proto == protocol_spec(ls)),
    }
}

impl<T: Handler> HttpHandler<T> {
    pub open spec fn wf(&self) -> bool {
        self.phase is Body ==> self.buffer@.len() == 0
    }

    /// A fresh engine around the given handler.
    pub fn new(h: T) -> (r: HttpHandler<T>)
        ensures
            r.handler == h,
            r.peer is None,
            reset_state(r),
            r.wf(),
    {
        HttpHandler { handler: h, peer: None, buffer: Vec::new(), lines: Vec::new(), phase: Phase::Headers }
    }

    /// Begins a new connection: remembers the peer's address and
    /// discards any state of the previous connection.
    pub fn start(&mut self, peer: Option<String>)
        ensures
            final(self).handler == old(self).handler,
            final(self).peer == peer,
            reset_state(*final(self)),
            final(self).wf(),
    {
        self.peer = peer;
        self.buffer = Vec::new();
        self.lines = Vec::new();
        self.phase = Phase::Headers;
    }

    /// Takes one complete line out of the buffer, as `line_split`
    /// describes; the buffer keeps what follows the line feed.
    fn take_line(&mut self) -> (r: Option<Vec<u8>>)
        ensures
            final(self).handler == old(self).handler,
            final(self).peer == old(self).peer,
            final(self).lines == old(self).lines,
            final(self).phase == old(self).phase,
            match line_split(old(self).buffer@) {
                Some(pair) => r matches Some(l) && l@ == pair.0 && final(self).buffer@ == pair.1
                    && final(self).buffer@.len() < old(self).buffer@.len(),
                None => r is None && *final(self) == *old(self),
            },
    {
        let n = self.buffer.len();
        match position_of(self.buffer.as_slice(), LF) {
            Some(pos) => {
                proof {
                    self.buffer@.index_of_first_ensures(LF);
                }
                let eol = if pos > 0 && *vstd::slice::slice_index_get(self.buffer.as_slice(), pos - 1) == CR {
                    pos - 1
                } else {
                    pos
                };
                let line = slice_to_vec(slice_subrange(self.buffer.as_slice(), 0, eol));
                let rest = slice_to_vec(slice_subrange(self.buffer.as_slice(), pos + 1, n));
                self.buffer = rest;
                Some(line)
            },
            None => None,
        }
    }

    /// Assembles one parsed request for the caller to dispatch, and
    /// remembers the request's protocol for the coming reply.
    fn make_request(&mut self, header: Header, post_data: PostData) -> (r: Step)
        ensures
            final(self).handler == old(self).handler,
            final(self).peer == old(self).peer,
            final(self).buffer@.len() == 0,
            final(self).lines@.len() == 0,
            final(self).wf(),
            final(self).phase matches Phase::Respond { proto } && proto == protocol_spec(
                header@,
            ),
            r matches Step::Dispatch(req) && req.header == header && req.post_data == post_data
                && peer_match(req.peer_addr, old(self).peer),
    {
        self.buffer = Vec::new();
        self.lines = Vec::new();
        let proto = header.protocol();
        self.phase = Phase::Respond { proto };
        let peer = match &self.peer {
            Some(s) => Some(s.clone()),
            None => None,
        };
        Step::Dispatch(Request { peer_addr: peer, header, post_data })
    }

    /// Serializes the response to the request last handed out,
    /// stamped with the current time; the engine then awaits the next
    /// request.  The reply's bytes and its close flag follow exactly
    /// from `resp` and the remembered protocol.
    pub fn respond(&mut self, resp: &Response) -> (r: Step)
        requires
            old(self).phase is Respond,
        ensures
            final(self).handler == old(self).handler,
            final(self).peer == old(self).peer,
            reset_state(*final(self)),
            final(self).wf(),
            old(self).phase matches Phase::Respond { proto } ==> (r matches Step::Send(
                bytes,
                close,
            ) && reply_for(bytes@, proto, *resp, close)),
    {
        let proto = match &self.phase {
            Phase::Respond { proto } => *proto,
            _ => {
                proof {
                    assert(false);
                }
                None
            },
        };
        self.buffer = Vec::new();
        self.lines = Vec::new();
        self.phase = Phase::Headers;
        let date = now_date();
        let bytes = serialize_response(proto, resp.status, &resp.content, resp.connection, &date);
        let close = matches!(resp.connection, Connection::Close);
        proof {
            assert(is_serialized_reply(bytes@, proto, *resp, date, close));
            assert(reply_for(bytes@, proto, *resp, close));
        }
        Step::Send(bytes, close)
    }

    /// Rules on a complete header section, with the body bytes
    /// already buffered (`None` when the stream ended instead of a
    /// blank line): rejects, waits for more body, or serves.
    fn finish_request(&mut self, avail: Option<Vec<u8>>) -> (r: Step)
        requires
            old(self).phase is Headers,
            old(self).buffer@.len() == 0,
        ensures
            final(self).handler == old(self).handler,
            final(self).peer == old(self).peer,
            final(self).wf(),
            step_matches(validate(old(self).lines.deep_view(), opt_view(avail)), r, *final(self)),
    {
        broadcast use lemma_bytes_deep_view;

        let ghost all_lines = old(self).lines.deep_view();
        let ghost body = opt_view(avail);
        let lines_vec = self.lines.split_off(0);
        let header = Header { lines: lines_vec };
        proof {
            assert(header.lines@ =~= old(self).lines@);
            assert(header@ =~= all_lines);
        }
        let method = header.method();
        let proto_missing = header.protocol().is_none();
        if method.is_none() || proto_missing {
            self.phase = Phase::Headers;
            return Step::Send(error_response(), true);
        }
        if let Some(Method::POST) = method {
            match header.content_length() {
                Some(length) => {
                    let ghost dspec = content_length_spec(all_lines).unwrap();
                    proof {
                        assert(length > MAX_POST_SIZE <==> dspec > MAX_POST_SIZE);
                        assert(length <= MAX_POST_SIZE ==> length == dspec);
                    }
                    if length > MAX_POST_SIZE {
                        self.phase = Phase::Headers;
                        return Step::Send(error_response(), true);
                    }
                    let had_avail = avail.is_some();
                    let mut data: Vec<u8> = match avail {
                        Some(v) => v,
                        None => Vec::new(),
                    };
                    proof {
                        assert(data@ == (match body {
                            Some(b) => b,
                            None => Seq::<u8>::empty(),
                        }));
                    }
                    if data.len() >= length {
                        data.truncate(length);
                        let post_data = if length <= BUFFER_SIZE {
                            PostData::Buf(data)
                        } else {
                            PostData::Owned(data)
                        };
                        self.make_request(header, post_data)
                    } else if !had_avail {
                        self.phase = Phase::Headers;
                        Step::Send(error_response(), true)
                    } else {
                        self.lines = header.lines;
                        proof {
                            assert(self.lines.deep_view() =~= all_lines);
                        }
                        self.phase = Phase::Body { length, data };
                        Step::NeedData
                    }
                },
                None => {
                    self.phase = Phase::Headers;
                    Step::Send(error_response(), true)
                },
            }
        } else {
            self.make_request(header, PostData::Absent)
        }
    }

    /// Feeds one chunk of transport bytes to the engine (an empty
    /// chunk meaning the peer closed its write side) and says what to
    /// do next, as `headers_decision` and `body_decision` rule.
    pub fn advance(&mut self, input: &[u8]) -> (r: Step)
        requires
            old(self).wf(),
            !(old(self).phase is Respond),
        ensures
            final(self).handler == old(self).handler,
            final(self).peer == old(self).peer,
            final(self).wf(),
            match old(self).phase {
                Phase::Headers => step_matches(
                    headers_decision(old(self).lines.deep_view(), old(self).buffer@, input@),
                    r,
                    *final(self),
                ),
                Phase::Body { length, data } => step_matches(
                    body_decision(old(self).lines.deep_view(), length as nat, data@, input@),
                    r,
                    *final(self),
                ),
                Phase::Respond { .. } => true,
            },
    {
        if matches!(self.phase, Phase::Headers) {
            self.advance_headers(input)
        } else {
            self.advance_body(input)
        }
    }

    fn advance_headers(&mut self, input: &[u8]) -> (r: Step)
        requires
            old(self).phase is Headers,
        ensures
            final(self).handler == old(self).handler,
            final(self).peer == old(self).peer,
            final(self).wf(),
            step_matches(
                headers_decision(old(self).lines.deep_view(), old(self).buffer@, input@),
                r,
                *final(self),
            ),
    {
        broadcast use lemma_bytes_deep_view;

        let ghost combined = old(self).buffer@ + input@;
        let ghost lines0 = old(self).lines.deep_view();
        push_bytes(&mut self.buffer, input);
        let ghost mut done: Seq<Seq<u8>> = Seq::empty();
        proof {
            assert(lines0 + done =~= lines0);
        }
        loop
            invariant
                self.phase is Headers,
                self.handler == old(self).handler,
                self.peer == old(self).peer,
                combined == old(self).buffer@ + input@,
                lines0 == old(self).lines.deep_view(),
                self.lines.deep_view() == lines0 + done,
                header_split(combined) == (match header_split(self.buffer@) {
                    Some(p2) => Some((done + p2.0, p2.1)),
                    None => None::<(Seq<Seq<u8>>, Seq<u8>)>,
                }),
                split_lines(combined).0 == done + split_lines(self.buffer@).0,
                split_lines(combined).1 == split_lines(self.buffer@).1,
            ensures
                self.phase is Headers,
                self.handler == old(self).handler,
                self.peer == old(self).peer,
                self.lines.deep_view() == lines0 + done,
                line_split(self.buffer@) is None,
                header_split(combined) is None,
                split_lines(combined).0 == done,
                split_lines(combined).1 == self.buffer@,
            decreases self.buffer@.len(),
        {
            let ghost buf_before = self.buffer@;
            match self.take_line() {
                Some(line) => {
                    let ghost pair = line_split(buf_before).unwrap();
                    if line.len() == 0 {
                        proof {
                            assert(header_split(buf_before) == Some(
                                (Seq::<Seq<u8>>::empty(), pair.1),
                            ));
                            assert(done + Seq::<Seq<u8>>::empty() =~= done);
                            assert(header_split(combined) == Some((done, pair.1)));
                        }
                        let rest = self.buffer.split_off(0);
                        proof {
                            assert(rest@ =~= pair.1);
                            assert(self.lines.deep_view() =~= lines0 + done);
                        }
                        let r = self.finish_request(Some(rest));
                        proof {
                            assert(headers_decision(lines0, old(self).buffer@, input@)
                                == validate(lines0 + done, Some(pair.1)));
                            assert(step_matches(
                                validate(lines0 + done, Some(pair.1)),
                                r,
                                *self,
                            ));
                        }
                        return r;
                    } else {
                        let ghost gline = line@;
                        let ghost lines_before = self.lines@;
                        self.lines.push(line);
                        proof {
                            assert(self.lines@ =~= lines_before.push(self.lines@.last()));
                            let lv = self.lines.deep_view();
                            let rv = lines0 + done.push(gline);
                            assert forall|i: int| 0 <= i < lv.len() implies lv[i] == rv[i] by {
                                if i < lines_before.len() {
                                    assert(self.lines@[i] == lines_before[i]);
                                    assert((lines0 + done)[i] == lines_before[i].deep_view());
                                } else {
                                    assert(lv[i] == self.lines@[i].deep_view());
                                    assert(self.lines@[i]@ == gline);
                                }
                            }
                            assert(self.lines.deep_view() =~= lines0 + done.push(gline));
                            assert(header_split(buf_before) == (match header_split(pair.1) {
                                Some(rec) => Some((seq![pair.0] + rec.0, rec.1)),
                                None => None::<(Seq<Seq<u8>>, Seq<u8>)>,
                            }));
                            if header_split(pair.1) is Some {
                                let rec = header_split(pair.1).unwrap();
                                assert(done + (seq![pair.0] + rec.0) =~= done.push(pair.0)
                                    + rec.0);
                            }
                            assert(split_lines(buf_before).0 =~= seq![pair.0] + split_lines(
                                pair.1,
                            ).0);
                            assert(done + (seq![pair.0] + split_lines(pair.1).0) =~= done.push(
                                pair.0,
                            ) + split_lines(pair.1).0);
                            assert(gline == pair.0);
                            done = done.push(pair.0);
                        }
                    }
                },
                None => {
                    break ;
                },
            }
        }
        if input.len() == 0 {
            if self.lines.len() == 0 {
                self.buffer = Vec::new();
                proof {
                    assert(lines0 + done =~= Seq::<Seq<u8>>::empty());
                }
                return Step::Close;
            }
            self.buffer = Vec::new();
            return self.finish_request(None);
        }
        if self.buffer.len() >= BUFFER_SIZE {
            self.buffer = Vec::new();
            self.lines = Vec::new();
            self.phase = Phase::Headers;
            return Step::Send(error_response(), true);
        }
        Step::NeedData
    }

    fn advance_body(&mut self, input: &[u8]) -> (r: Step)
        requires
            old(self).wf(),
            old(self).phase is Body,
        ensures
            final(self).handler == old(self).handler,
            final(self).peer == old(self).peer,
            final(self).wf(),
            old(self).phase matches Phase::Body { length, data } ==> step_matches(
                body_decision(old(self).lines.deep_view(), length as nat, data@, input@),
                r,
                *final(self),
            ),
    {
        broadcast use lemma_bytes_deep_view;

        if input.len() == 0 {
            self.buffer = Vec::new();
            self.lines = Vec::new();
            self.phase = Phase::Headers;
            return Step::Send(error_response(), true);
        }
        let length: usize = match &self.phase {
            Phase::Body { length, .. } => *length,
            _ => {
                proof {
                    assert(false);
                }
                0
            },
        };
        let mut d2: Vec<u8> = match &self.phase {
            Phase::Body { data, .. } => slice_to_vec(data.as_slice()),
            _ => {
                proof {
                    assert(false);
                }
                Vec::new()
            },
        };
        push_bytes(&mut d2, input);
        if d2.len() >= length {
            d2.truncate(length);
            let lines_vec = self.lines.split_off(0);
            let header = Header { lines: lines_vec };
            proof {
                assert(header.lines@ =~= old(self).lines@);
                assert(header@ =~= old(self).lines.deep_view());
            }
            let post_data = if length <= BUFFER_SIZE {
                PostData::Buf(d2)
            } else {
                PostData::Owned(d2)
            };
            self.make_request(header, post_data)
        } else {
            self.phase = Phase::Body { length, data: d2 };
            Step::NeedData
        }
    }
}

} // verus!
