//! The staging path scheme.
//!
//! Staging object paths are derived from client-supplied bucket names,
//! object keys and upload ids. `/` is the staging store's hierarchy
//! delimiter and `-` joins the components, so both are escaped in every
//! client-supplied component before the components are joined — and `%`
//! with them, which makes the escaping injective: distinct (bucket, key,
//! upload id) triples always get distinct, non-overlapping roots. A
//! session's upload root is one path segment, `bucket-key-uploadid`; the
//! objects of the session live one level below it: `root/<part number>`
//! for parts and `root/marker` for the session marker.

use vstd::prelude::*;

verus! {

/// `String::push` appends one character; vstd does not specify it.
pub assume_specification[ String::push ](s: &mut String, c: char)
    ensures
        final(s)@ == old(s)@ + seq![c],
;

/// Whether a character is one the path scheme escapes: the hierarchy
/// delimiter `/`, the component joiner `-`, and the escape lead `%`.
pub open spec fn is_escaped_char(c: char) -> bool {
    c == '/' || c == '-' || c == '%'
}

/// How one character is escaped: `/` becomes `%2F`, `-` becomes `%2D`,
/// `%` becomes `%25`, all else is kept. Escaping the joiner and the lead
/// as well as the delimiter makes the escaping injective, so joined
/// components can never collide.
pub open spec fn escape_char(c: char) -> Seq<char> {
    if c == '/' {
        seq!['%', '2', 'F']
    } else if c == '-' {
        seq!['%', '2', 'D']
    } else if c == '%' {
        seq!['%', '2', '5']
    } else {
        seq![c]
    }
}

/// The escaping applied to every client-supplied path component.
pub open spec fn escape(s: Seq<char>) -> Seq<char>
    decreases s.len(),
{
    if s.len() == 0 {
        Seq::empty()
    } else {
        escape_char(s.first()) + escape(s.drop_first())
    }
}

/// Escaping one more character at the end appends its escape.
pub proof fn lemma_escape_snoc(s: Seq<char>, c: char)
    ensures
        escape(s.push(c)) == escape(s) + escape_char(c),
    decreases s.len(),
{
    if s.len() == 0 {
        assert(s =~= Seq::<char>::empty());
        assert(s.push(c).drop_first() =~= Seq::<char>::empty());
        assert(s.push(c).first() == c);
        assert(escape(s.push(c)) == escape_char(c) + escape(s.push(c).drop_first()));
        assert(escape(s.push(c).drop_first()) == escape(s));
        assert(escape(s) == Seq::<char>::empty());
        assert(escape(s.push(c)) =~= escape(s) + escape_char(c));
    } else {
        assert(s.push(c).first() == s.first());
        assert(s.push(c).drop_first() =~= s.drop_first().push(c));
        lemma_escape_snoc(s.drop_first(), c);
        assert(escape(s.push(c)) =~= escape(s) + escape_char(c));
    }
}

/// Escaped components never contain the hierarchy delimiter `/` nor the
/// component joiner `-`.
pub proof fn lemma_escape_no_delimiter(s: Seq<char>)
    ensures
        forall|i: int| 0 <= i < escape(s).len() ==> escape(s)[i] != '/' && escape(s)[i] != '-',
    decreases s.len(),
{
    if s.len() > 0 {
        lemma_escape_no_delimiter(s.drop_first());
        let ec = escape_char(s.first());
        let rest = escape(s.drop_first());
        assert(forall|i: int| 0 <= i < ec.len() ==> ec[i] != '/' && ec[i] != '-');
        assert forall|i: int|
            0 <= i < escape(s).len() implies escape(s)[i] != '/' && escape(s)[i] != '-' by {
            if i < ec.len() {
                assert(escape(s)[i] == ec[i]);
            } else {
                assert(escape(s)[i] == rest[i - ec.len()]);
            }
        }
    }
}

/// Escaping changes nothing on a component that contains none of the
/// escaped characters.
pub proof fn lemma_escape_identity(s: Seq<char>)
    requires
        forall|i: int| 0 <= i < s.len() ==> !is_escaped_char(#[trigger] s[i]),
    ensures
        escape(s) == s,
    decreases s.len(),
{
    if s.len() == 0 {
        assert(escape(s) =~= s);
    } else {
        assert(!is_escaped_char(s.first()));
        assert(forall|i: int|
            0 <= i < s.drop_first().len() ==> !is_escaped_char(#[trigger] s.drop_first()[i]));
        lemma_escape_identity(s.drop_first());
        assert(escape(s) =~= s);
    }
}

/// Escaping is injective: distinct components have distinct escapes.
pub proof fn lemma_escape_injective(a: Seq<char>, b: Seq<char>)
    requires
        escape(a) == escape(b),
    ensures
        a == b,
    decreases a.len(),
{
    if a.len() == 0 {
        if b.len() > 0 {
            assert(escape(b) == escape_char(b.first()) + escape(b.drop_first()));
            assert(escape(b).len() >= escape_char(b.first()).len());
            assert(escape_char(b.first()).len() >= 1);
            assert(false);
        }
        assert(a =~= b);
    } else if b.len() == 0 {
        assert(escape(a) == escape_char(a.first()) + escape(a.drop_first()));
        assert(escape(a).len() >= 1);
        assert(false);
    } else {
        let ca = a.first();
        let cb = b.first();
        let ea = escape_char(ca);
        let eb = escape_char(cb);
        assert(escape(a) == ea + escape(a.drop_first()));
        assert(escape(b) == eb + escape(b.drop_first()));
        assert(escape(a)[0] == ea[0]);
        assert(escape(b)[0] == eb[0]);
        if is_escaped_char(ca) {
            assert(ea[0] == '%');
            assert(is_escaped_char(cb)) by {
                if !is_escaped_char(cb) {
                    assert(eb == seq![cb]);
                    assert(cb == '%');
                }
            }
            assert(ea.len() == 3 && eb.len() == 3);
            assert(escape(a)[2] == ea[2]);
            assert(escape(b)[2] == eb[2]);
            assert(ca == cb);
            assert(escape(a.drop_first()) =~= escape(a).subrange(3, escape(a).len() as int));
            assert(escape(b.drop_first()) =~= escape(b).subrange(3, escape(b).len() as int));
            lemma_escape_injective(a.drop_first(), b.drop_first());
            assert(a.len() == b.len());
            assert forall|i: int| 0 <= i < a.len() implies a[i] == b[i] by {
                if i > 0 {
                    assert(a[i] == a.drop_first()[i - 1]);
                    assert(b[i] == b.drop_first()[i - 1]);
                }
            }
            assert(a =~= b);
        } else {
            assert(ea == seq![ca]);
            assert(escape(a)[0] == ca);
            assert(!is_escaped_char(cb)) by {
                if is_escaped_char(cb) {
                    assert(eb[0] == '%');
                    assert(ca == '%');
                }
            }
            assert(eb == seq![cb]);
            assert(ca == cb);
            assert(escape(a.drop_first()) =~= escape(a).subrange(1, escape(a).len() as int));
            assert(escape(b.drop_first()) =~= escape(b).subrange(1, escape(b).len() as int));
            lemma_escape_injective(a.drop_first(), b.drop_first());
            assert(a.len() == b.len());
            assert forall|i: int| 0 <= i < a.len() implies a[i] == b[i] by {
                if i > 0 {
                    assert(a[i] == a.drop_first()[i - 1]);
                    assert(b[i] == b.drop_first()[i - 1]);
                }
            }
            assert(a =~= b);
        }
    }
}

/// A string whose escaped form is safe to splice into staging paths.
pub struct SafeString {
    inner: String,
}

impl View for SafeString {
    type V = Seq<char>;

    closed spec fn view(&self) -> Seq<char> {
        self.inner@
    }
}

impl SafeString {
    /// Escapes the input: `/` becomes `%2F`, `-` becomes `%2D`, `%`
    /// becomes `%25`, all else is kept.
    pub fn new(ini: String) -> (r: Self)
        ensures
            r@ == escape(ini@),
    {
        let n = ini.as_str().unicode_len();
        let mut out = String::new();
        let mut i: usize = 0;
        while i < n
            invariant
                n == ini@.len(),
                i <= n,
                out@ == escape(ini@.subrange(0, i as int)),
            decreases n - i,
        {
            let c = ini.as_str().get_char(i);
            if c == '/' {
                out.push('%');
                out.push('2');
                out.push('F');
            } else if c == '-' {
                out.push('%');
                out.push('2');
                out.push('D');
            } else if c == '%' {
                out.push('%');
                out.push('2');
                out.push('5');
            } else {
                out.push(c);
            }
            proof {
                let pre = ini@.subrange(0, i as int);
                let pre1 = ini@.subrange(0, i + 1);
                assert(pre1 =~= pre.push(c));
                lemma_escape_snoc(pre, c);
                assert(out@ =~= escape(pre1));
            }
            i = i + 1;
        }
        proof {
            assert(ini@.subrange(0, n as int) =~= ini@);
        }
        SafeString { inner: out }
    }

    /// The escaped text itself.
    pub fn as_str(&self) -> (r: &str)
        ensures
            r@ == self@,
    {
        self.inner.as_str()
    }
}

/// The upload root segment for a session: `bucket-key-uploadid` over the
/// already escaped components.
pub open spec fn root_of(eb: Seq<char>, ek: Seq<char>, eid: Seq<char>) -> Seq<char> {
    eb + seq!['-'] + ek + seq!['-'] + eid
}

/// Builds the upload root segment for a (bucket, key, upload id) triple.
pub fn upload_root(bucket: &SafeString, key: &SafeString, upload_id: &SafeString) -> (r: String)
    ensures
        r@ == root_of(bucket@, key@, upload_id@),
{
    let mut out = String::new();
    out.append(bucket.as_str());
    out.push('-');
    out.append(key.as_str());
    out.push('-');
    out.append(upload_id.as_str());
    out
}

/// The digit character for a value below ten.
pub open spec fn dec_digit(n: int) -> char {
    if n == 0 { '0' }
    else if n == 1 { '1' }
    else if n == 2 { '2' }
    else if n == 3 { '3' }
    else if n == 4 { '4' }
    else if n == 5 { '5' }
    else if n == 6 { '6' }
    else if n == 7 { '7' }
    else if n == 8 { '8' }
    else { '9' }
}

/// The value of a digit character, or ten for any other character.
pub open spec fn digit_val(c: char) -> int {
    if c == '0' { 0 }
    else if c == '1' { 1 }
    else if c == '2' { 2 }
    else if c == '3' { 3 }
    else if c == '4' { 4 }
    else if c == '5' { 5 }
    else if c == '6' { 6 }
    else if c == '7' { 7 }
    else if c == '8' { 8 }
    else if c == '9' { 9 }
    else { 10 }
}

/// The canonical decimal rendering of a non-negative number.
pub open spec fn dec_str(n: int) -> Seq<char>
    recommends 0 <= n,
    decreases n,
{
    if n < 10 {
        seq![dec_digit(n)]
    } else {
        dec_str(n / 10) + seq![dec_digit(n % 10)]
    }
}

/// The number a digit string denotes.
pub open spec fn dec_val(s: Seq<char>) -> int
    decreases s.len(),
{
    if s.len() == 0 {
        0
    } else {
        dec_val(s.drop_last()) * 10 + digit_val(s.last())
    }
}

/// A canonical decimal rendering: digits only, no leading zero.
pub open spec fn is_canonical_dec(s: Seq<char>) -> bool {
    &&& s.len() >= 1
    &&& forall|i: int| 0 <= i < s.len() ==> digit_val(s[i]) < 10
    &&& (s.len() > 1 ==> s[0] != '0')
}

/// A digit survives the round trip through its character.
proof fn lemma_digit_roundtrip(n: int)
    requires
        0 <= n < 10,
    ensures
        digit_val(dec_digit(n)) == n,
{
}

/// Reading back the canonical rendering gives the number itself.
pub proof fn lemma_dec_val_of_dec_str(n: int)
    requires
        0 <= n,
    ensures
        dec_val(dec_str(n)) == n,
    decreases n,
{
    if n < 10 {
        assert(dec_str(n) == seq![dec_digit(n)]);
        assert(dec_str(n).drop_last() =~= Seq::<char>::empty());
        assert(dec_val(Seq::<char>::empty()) == 0);
        assert(dec_str(n).last() == dec_digit(n));
        lemma_digit_roundtrip(n);
        assert(dec_val(dec_str(n)) == 0 * 10 + digit_val(dec_digit(n)));
    } else {
        lemma_dec_val_of_dec_str(n / 10);
        assert(dec_str(n).drop_last() =~= dec_str(n / 10));
        assert(dec_str(n).last() == dec_digit(n % 10));
        lemma_digit_roundtrip(n % 10);
    }
}

/// The canonical rendering really is canonical.
pub proof fn lemma_dec_str_canonical(n: int)
    requires
        0 <= n,
    ensures
        is_canonical_dec(dec_str(n)),
        n < 10000 ==> dec_str(n).len() <= 4,
        dec_str(n).len() >= 2 ==> n >= 10,
    decreases n,
{
    if n < 10 {
    } else {
        lemma_dec_str_canonical(n / 10);
        let s = dec_str(n);
        let h = dec_str(n / 10);
        assert(h.len() >= 1);
        assert(s[0] == h[0]);
        assert forall|i: int| 0 <= i < s.len() implies digit_val(s[i]) < 10 by {
            if i < h.len() {
                assert(s[i] == h[i]);
            } else {
                assert(s[i] == dec_digit(n % 10));
            }
        }
        if h.len() == 1 {
            assert(n / 10 >= 1);
            assert(n / 10 < 10) by {
                let m = n / 10;
                if m >= 10 {
                    assert(dec_str(m) == dec_str(m / 10) + seq![dec_digit(m % 10)]);
                    assert(h.len() >= 2);
                }
            }
            assert(h == seq![dec_digit(n / 10)]);
            assert(h[0] == dec_digit(n / 10));
            assert(dec_digit(n / 10) != '0');
        } else {
            assert(h[0] != '0');
        }
        assert(s[0] != '0');
        if n < 10000 {
            assert(n / 10 < 1000);
            if h.len() >= 4 {
                lemma_dec_len_lower(n / 10);
                assert(false);
            }
        }
    }
}

/// A rendering of four or more digits denotes at least one thousand.
proof fn lemma_dec_len_lower(n: int)
    requires
        0 <= n,
        dec_str(n).len() >= 4,
    ensures
        n >= 1000,
    decreases n,
{
    if n < 10 {
    } else {
        assert(dec_str(n) == dec_str(n / 10) + seq![dec_digit(n % 10)]);
        if dec_str(n / 10).len() >= 4 {
            lemma_dec_len_lower(n / 10);
        } else {
            lemma_dec_len_3_lower(n / 10);
        }
    }
}

/// A rendering of three or more digits denotes at least one hundred.
proof fn lemma_dec_len_3_lower(n: int)
    requires
        0 <= n,
        dec_str(n).len() >= 3,
    ensures
        n >= 100,
    decreases n,
{
    if n < 10 {
    } else {
        assert(dec_str(n) == dec_str(n / 10) + seq![dec_digit(n % 10)]);
        if dec_str(n / 10).len() >= 3 {
            lemma_dec_len_3_lower(n / 10);
        } else {
            assert(dec_str(n / 10).len() >= 2);
            lemma_dec_len_2_lower(n / 10);
        }
    }
}

/// A rendering of two or more digits denotes at least ten.
proof fn lemma_dec_len_2_lower(n: int)
    requires
        0 <= n,
        dec_str(n).len() >= 2,
    ensures
        n >= 10,
    decreases n,
{
}

/// Every canonical digit string is the rendering of its own value.
pub proof fn lemma_canonical_is_dec_str(s: Seq<char>)
    requires
        is_canonical_dec(s),
    ensures
        0 <= dec_val(s),
        s == dec_str(dec_val(s)),
    decreases s.len(),
{
    if s.len() == 1 {
        assert(s.drop_last() =~= Seq::<char>::empty());
        assert(dec_val(Seq::<char>::empty()) == 0);
        assert(s.last() == s[0]);
        assert(digit_val(s[0]) < 10);
        assert(dec_val(s) == 0 * 10 + digit_val(s[0]));
        assert(dec_digit(digit_val(s[0])) == s[0]);
        assert(s =~= dec_str(dec_val(s)));
    } else {
        let h = s.drop_last();
        assert(h[0] == s[0]);
        assert(forall|i: int| 0 <= i < h.len() ==> h[i] == s[i]);
        lemma_canonical_is_dec_str(h);
        let v = dec_val(s);
        assert(s.last() == s[s.len() - 1]);
        assert(digit_val(s.last()) < 10);
        assert(v == dec_val(h) * 10 + digit_val(s.last()));
        if h.len() > 1 {
            lemma_dec_len_2_lower(dec_val(h));
            assert(dec_val(h) >= 10);
        } else {
            assert(h == dec_str(dec_val(h)));
            assert(h[0] != '0');
            assert(dec_val(h) >= 1) by {
                if dec_val(h) == 0 {
                    assert(dec_str(0) == seq![dec_digit(0)]);
                }
            }
        }
        assert(v >= 10);
        assert(v / 10 == dec_val(h) && v % 10 == digit_val(s.last())) by (nonlinear_arith)
            requires
                v == dec_val(h) * 10 + digit_val(s.last()),
                0 <= digit_val(s.last()) < 10,
                dec_val(h) >= 0,
        ;
        assert(dec_digit(digit_val(s.last())) == s.last());
        assert(s =~= dec_str(v));
    }
}

/// Rendering is injective: distinct numbers have distinct digit strings.
pub proof fn lemma_dec_str_injective(m: int, n: int)
    requires
        0 <= m,
        0 <= n,
        dec_str(m) == dec_str(n),
    ensures
        m == n,
{
    lemma_dec_val_of_dec_str(m);
    lemma_dec_val_of_dec_str(n);
}

/// The digit character for a value below ten.
fn dec_digit_char(n: u32) -> (c: char)
    requires
        n < 10,
    ensures
        c == dec_digit(n as int),
{
    match n {
        0 => '0',
        1 => '1',
        2 => '2',
        3 => '3',
        4 => '4',
        5 => '5',
        6 => '6',
        7 => '7',
        8 => '8',
        _ => '9',
    }
}

/// The value of a digit character, or ten for any other character.
fn digit_value(c: char) -> (r: u32)
    ensures
        r == digit_val(c),
{
    if c == '0' { 0 }
    else if c == '1' { 1 }
    else if c == '2' { 2 }
    else if c == '3' { 3 }
    else if c == '4' { 4 }
    else if c == '5' { 5 }
    else if c == '6' { 6 }
    else if c == '7' { 7 }
    else if c == '8' { 8 }
    else if c == '9' { 9 }
    else { 10 }
}

/// Appends the canonical decimal rendering of `n`.
fn push_dec(out: &mut String, n: u32)
    ensures
        final(out)@ == old(out)@ + dec_str(n as int),
    decreases n,
{
    if n < 10 {
        out.push(dec_digit_char(n));
    } else {
        push_dec(out, n / 10);
        out.push(dec_digit_char(n % 10));
        proof {
            assert(final(out)@ =~= old(out)@ + dec_str(n as int));
        }
    }
}

/// The canonical decimal rendering of `n` as a path segment.
pub fn dec_string(n: u32) -> (r: String)
    ensures
        r@ == dec_str(n as int),
{
    let mut out = String::new();
    push_dec(&mut out, n);
    proof {
        assert(out@ =~= dec_str(n as int));
    }
    out
}

/// Reads a path segment back as a part number.
///
/// Returns the number a segment canonically renders, when that number is
/// below the protocol's part-count maximum; every other segment (the
/// session marker among them) is `None`.
pub fn parse_part_segment(s: &str) -> (r: Option<u32>)
    ensures
        match r {
            Some(n) => n < 10000 && s@ == dec_str(n as int),
            None => forall|n: int| 0 <= n < 10000 ==> s@ != dec_str(n),
        },
{
    let len = s.unicode_len();
    if len == 0 || len > 4 {
        proof {
            assert forall|n: int| 0 <= n < 10000 implies s@ != dec_str(n) by {
                lemma_dec_str_canonical(n);
            }
        }
        return None;
    }
    let mut i: usize = 0;
    let mut v: u32 = 0;
    while i < len
        invariant
            len == s@.len(),
            1 <= len <= 4,
            i <= len,
            v == dec_val(s@.subrange(0, i as int)),
            v < 10000,
            forall|j: int| 0 <= j < i ==> digit_val(s@[j]) < 10,
        decreases len - i,
    {
        let c = s.get_char(i);
        let d = digit_value(c);
        if d >= 10 {
            proof {
                assert(digit_val(s@[i as int]) >= 10);
                assert forall|n: int| 0 <= n < 10000 implies s@ != dec_str(n) by {
                    lemma_dec_str_canonical(n);
                    if s@ == dec_str(n) {
                        assert(digit_val(s@[i as int]) < 10);
                    }
                }
            }
            return None;
        }
        proof {
            let pre = s@.subrange(0, i as int);
            let pre1 = s@.subrange(0, i + 1);
            assert(pre1.drop_last() =~= pre);
            assert(pre1.last() == s@[i as int]);
            assert(dec_val(pre) <= 999) by {
                lemma_dec_val_bound(pre);
            }
        }
        v = v * 10 + d;
        i = i + 1;
    }
    proof {
        assert(s@.subrange(0, len as int) =~= s@);
    }
    if len > 1 && s.get_char(0) == '0' {
        proof {
            assert forall|n: int| 0 <= n < 10000 implies s@ != dec_str(n) by {
                lemma_dec_str_canonical(n);
            }
        }
        return None;
    }
    proof {
        assert(is_canonical_dec(s@));
        lemma_canonical_is_dec_str(s@);
        assert(s@ == dec_str(v as int));
        assert forall|n: int| 0 <= n < 10000 && s@ == dec_str(n) implies n == v as int by {
            lemma_dec_str_injective(n, v as int);
        }
        lemma_dec_len_bound_val(s@);
    }
    Some(v)
}

/// A digit string of at most four digits denotes less than ten thousand.
proof fn lemma_dec_val_bound(s: Seq<char>)
    requires
        s.len() <= 3,
        forall|i: int| 0 <= i < s.len() ==> digit_val(s[i]) < 10,
    ensures
        0 <= dec_val(s) <= 999,
    decreases s.len(),
{
    if s.len() > 0 {
        assert(forall|i: int| 0 <= i < s.drop_last().len() ==> digit_val(s.drop_last()[i]) < 10);
        lemma_dec_val_bound_2(s.drop_last());
    }
}

/// A digit string of at most two digits denotes less than one hundred.
proof fn lemma_dec_val_bound_2(s: Seq<char>)
    requires
        s.len() <= 2,
        forall|i: int| 0 <= i < s.len() ==> digit_val(s[i]) < 10,
    ensures
        0 <= dec_val(s) <= 99,
    decreases s.len(),
{
    if s.len() > 0 {
        assert(forall|i: int| 0 <= i < s.drop_last().len() ==> digit_val(s.drop_last()[i]) < 10);
        lemma_dec_val_bound_1(s.drop_last());
    }
}

/// A digit string of at most one digit denotes less than ten.
proof fn lemma_dec_val_bound_1(s: Seq<char>)
    requires
        s.len() <= 1,
        forall|i: int| 0 <= i < s.len() ==> digit_val(s[i]) < 10,
    ensures
        0 <= dec_val(s) <= 9,
{
    if s.len() == 1 {
        assert(s.drop_last() =~= Seq::<char>::empty());
        assert(dec_val(Seq::<char>::empty()) == 0);
        assert(digit_val(s[0]) < 10);
        assert(s.last() == s[0]);
        assert(dec_val(s) == 0 * 10 + digit_val(s[0]));
    }
}

/// A digit string of at most four digits denotes less than ten thousand.
proof fn lemma_dec_len_bound_val(s: Seq<char>)
    requires
        s.len() <= 4,
        forall|i: int| 0 <= i < s.len() ==> digit_val(s[i]) < 10,
    ensures
        0 <= dec_val(s) <= 9999,
{
    if s.len() > 0 {
        assert(forall|i: int| 0 <= i < s.drop_last().len() ==> digit_val(s.drop_last()[i]) < 10);
        lemma_dec_val_bound(s.drop_last());
    }
}

/// True when `c` occurs nowhere in `s`.
pub open spec fn free_of(s: Seq<char>, c: char) -> bool {
    forall|i: int| 0 <= i < s.len() ==> s[i] != c
}

/// Distinct (bucket, key, upload id) triples map to distinct upload
/// roots, for every input: the escaping is injective and keeps the
/// joiner `-` out of the escaped components, so the joined form splits
/// back uniquely.
pub proof fn lemma_root_distinct(
    b1: Seq<char>, k1: Seq<char>, i1: Seq<char>,
    b2: Seq<char>, k2: Seq<char>, i2: Seq<char>,
)
    requires
        !(b1 == b2 && k1 == k2 && i1 == i2),
    ensures
        root_of(escape(b1), escape(k1), escape(i1)) != root_of(escape(b2), escape(k2), escape(i2)),
{
    lemma_escape_no_delimiter(b1);
    lemma_escape_no_delimiter(k1);
    lemma_escape_no_delimiter(i1);
    lemma_escape_no_delimiter(b2);
    lemma_escape_no_delimiter(k2);
    lemma_escape_no_delimiter(i2);
    let eb1 = escape(b1);
    let ek1 = escape(k1);
    let ei1 = escape(i1);
    let eb2 = escape(b2);
    let ek2 = escape(k2);
    let ei2 = escape(i2);
    let r1 = root_of(eb1, ek1, ei1);
    let r2 = root_of(eb2, ek2, ei2);
    if r1 == r2 {
        assert(eb1 + seq!['-'] + (ek1 + seq!['-'] + ei1) =~= r1);
        assert(eb2 + seq!['-'] + (ek2 + seq!['-'] + ei2) =~= r2);
        lemma_first_joined_component(eb1, ek1 + seq!['-'] + ei1, eb2, ek2 + seq!['-'] + ei2);
        assert(eb1 == eb2);
        lemma_escape_injective(b1, b2);
        assert(r1.subrange(eb1.len() as int + 1, r1.len() as int) =~= ek1 + seq!['-'] + ei1);
        assert(r2.subrange(eb2.len() as int + 1, r2.len() as int) =~= ek2 + seq!['-'] + ei2);
        lemma_first_joined_component(ek1, ei1, ek2, ei2);
        assert(ek1 == ek2);
        lemma_escape_injective(k1, k2);
        let t1 = ek1 + seq!['-'] + ei1;
        let t2 = ek2 + seq!['-'] + ei2;
        assert(t1.subrange(ek1.len() as int + 1, t1.len() as int) =~= ei1);
        assert(t2.subrange(ek2.len() as int + 1, t2.len() as int) =~= ei2);
        assert(ei1 =~= ei2);
        lemma_escape_injective(i1, i2);
        assert(false);
    }
}

/// If `a1 + "-" + r1 == a2 + "-" + r2` and the `a`s are `-`-free, then
/// `a1 == a2`.
proof fn lemma_first_joined_component(a1: Seq<char>, r1: Seq<char>, a2: Seq<char>, r2: Seq<char>)
    requires
        free_of(a1, '-'),
        free_of(a2, '-'),
        a1 + seq!['-'] + r1 == a2 + seq!['-'] + r2,
    ensures
        a1 == a2,
{
    let s = a1 + seq!['-'] + r1;
    if a1.len() < a2.len() {
        assert(s[a1.len() as int] == '-');
        assert(s[a1.len() as int] == a2[a1.len() as int]);
        assert(false);
    } else if a2.len() < a1.len() {
        assert(s[a2.len() as int] == '-');
        assert(s[a2.len() as int] == a1[a2.len() as int]);
        assert(false);
    } else {
        assert forall|i: int| 0 <= i < a1.len() implies a1[i] == a2[i] by {
            assert(s[i] == a1[i]);
            assert((a2 + seq!['-'] + r2)[i] == a2[i]);
        }
        assert(a1 =~= a2);
    }
}

} // verus!
