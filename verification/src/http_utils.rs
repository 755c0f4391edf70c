//! Header handling: case-insensitive lookup, the forwarding header name,
//! Cache-Control parsing, and the request-cacheability rule.
//!
//! Header values are handled as byte strings. The Cache-Control grammar
//! recognised here is the one the proxy acts on: a value is a
//! comma-separated list of directives; a directive is trimmed of spaces and
//! tabs at both ends; `public` marks the response shareable, and
//! `max-age=N` with a decimal N gives its lifetime in seconds.

use vstd::prelude::*;
use vstd::string::StrSliceExecFns;
use vstd::string::StringSliceAdditionalSpecFns;

verus! {

broadcast use {vstd::seq_lib::group_to_multiset_ensures, vstd::slice::group_slice_axioms};

/// Optional whitespace around a directive: space or horizontal tab.
pub open spec fn is_ows(b: u8) -> bool {
    b == 32 || b == 9
}

pub open spec fn is_digit(b: u8) -> bool {
    48 <= b <= 57
}

pub open spec fn all_digits(s: Seq<u8>) -> bool {
    forall|i: int| 0 <= i < s.len() ==> is_digit(#[trigger] s[i])
}

/// The number written in decimal by `s`, most significant digit first.
pub open spec fn digits_value(s: Seq<u8>) -> int
    decreases s.len(),
{
    if s.len() == 0 {
        0
    } else {
        digits_value(s.drop_last()) * 10 + (s.last() - 48)
    }
}

/// What a decimal field means: a non-empty, all-digit string whose value
/// fits in a u64; anything else is refused.
pub open spec fn spec_parse_u64(s: Seq<u8>) -> Option<u64> {
    if s.len() > 0 && all_digits(s) && digits_value(s) <= u64::MAX {
        Some(digits_value(s) as u64)
    } else {
        None
    }
}

/// Splitting at a separator: always one more segment than separators, and
/// empty segments are kept.
pub open spec fn spec_split(s: Seq<u8>, sep: u8) -> Seq<Seq<u8>>
    decreases s.len(),
{
    if s.len() == 0 {
        seq![Seq::<u8>::empty()]
    } else if s.first() == sep {
        seq![Seq::<u8>::empty()] + spec_split(s.drop_first(), sep)
    } else {
        let rest = spec_split(s.drop_first(), sep);
        seq![seq![s.first()] + rest.first()] + rest.drop_first()
    }
}

pub open spec fn spec_trim_front(s: Seq<u8>) -> Seq<u8>
    decreases s.len(),
{
    if s.len() > 0 && is_ows(s.first()) {
        spec_trim_front(s.drop_first())
    } else {
        s
    }
}

pub open spec fn spec_trim_back(s: Seq<u8>) -> Seq<u8>
    decreases s.len(),
{
    if s.len() > 0 && is_ows(s.last()) {
        spec_trim_back(s.drop_last())
    } else {
        s
    }
}

/// A directive with the optional whitespace removed from both ends.
pub open spec fn spec_trim(s: Seq<u8>) -> Seq<u8> {
    spec_trim_back(spec_trim_front(s))
}

proof fn lemma_trim_front_skip(s: Seq<u8>, k: int)
    requires
        0 <= k <= s.len(),
        forall|m: int| 0 <= m < k ==> is_ows(#[trigger] s[m]),
        k == s.len() || !is_ows(s[k]),
    ensures
        spec_trim_front(s) == s.skip(k),
    decreases k,
{
    if k == 0 {
        assert(s.skip(0) =~= s);
    } else {
        assert(is_ows(s.first()));
        lemma_trim_front_skip(s.drop_first(), k - 1);
        assert(s.drop_first().skip(k - 1) =~= s.skip(k));
    }
}

proof fn lemma_trim_back_take(s: Seq<u8>, k: int)
    requires
        0 <= k <= s.len(),
        forall|m: int| k <= m < s.len() ==> is_ows(#[trigger] s[m]),
        k == 0 || !is_ows(s[k - 1]),
    ensures
        spec_trim_back(s) == s.take(k),
    decreases s.len() - k,
{
    if k == s.len() {
        if s.len() > 0 {
            assert(!is_ows(s.last()));
        }
        assert(s.take(k) =~= s);
    } else {
        assert(is_ows(s.last()));
        lemma_trim_back_take(s.drop_last(), k);
        assert(s.drop_last().take(k) =~= s.take(k));
    }
}

proof fn lemma_digits_value_nonneg(s: Seq<u8>)
    requires
        all_digits(s),
    ensures
        digits_value(s) >= 0,
    decreases s.len(),
{
    if s.len() > 0 {
        assert(all_digits(s.drop_last()));
        lemma_digits_value_nonneg(s.drop_last());
    }
}

/// Extending a digit string to the right never shrinks its value.
proof fn lemma_digits_value_prefix(s: Seq<u8>, k: int)
    requires
        all_digits(s),
        0 <= k <= s.len(),
    ensures
        digits_value(s.take(k)) <= digits_value(s),
    decreases s.len() - k,
{
    if k == s.len() {
        assert(s.take(k) =~= s);
    } else {
        lemma_digits_value_prefix(s.drop_last(), k);
        assert(all_digits(s.drop_last()));
        assert(s.drop_last().take(k) =~= s.take(k));
        lemma_digits_value_nonneg(s.drop_last());
        assert(is_digit(s.last()));
    }
}

/// Equality of two byte strings.
pub fn bytes_eq(a: &[u8], b: &[u8]) -> (r: bool)
    ensures
        r == (a@ == b@),
{
    if a.len() != b.len() {
        return false;
    }
    let mut i: usize = 0;
    while i < a.len()
        invariant
            i <= a@.len(),
            a@.len() == b@.len(),
            forall|m: int| 0 <= m < i ==> a@[m] == b@[m],
        decreases a@.len() - i,
    {
        let x = *vstd::slice::slice_index_get(a, i);
        let y = *vstd::slice::slice_index_get(b, i);
        if x != y {
            return false;
        }
        i = i + 1;
    }
    proof {
        assert(a@ =~= b@);
    }
    true
}

/// The decimal value of a field, refused when empty, non-digit, or too
/// large for a u64.
pub fn parse_u64_bytes(s: &[u8]) -> (r: Option<u64>)
    ensures
        r == spec_parse_u64(s@),
{
    if s.len() == 0 {
        return None;
    }
    let mut acc: u64 = 0;
    let mut i: usize = 0;
    while i < s.len()
        invariant
            i <= s@.len(),
            s@.len() > 0,
            all_digits(s@.take(i as int)),
            acc == digits_value(s@.take(i as int)),
        decreases s@.len() - i,
    {
        let b = *vstd::slice::slice_index_get(s, i);
        if b < 48 || b > 57 {
            proof {
                assert(!is_digit(s@[i as int]));
            }
            return None;
        }
        let d = (b - 48) as u64;
        proof {
            assert(s@.take(i + 1).drop_last() =~= s@.take(i as int));
            assert(s@.take(i + 1).last() == s@[i as int]);
            assert(all_digits(s@.take(i + 1)));
        }
        let m = match acc.checked_mul(10) {
            Some(m) => m,
            None => {
                proof {
                    if all_digits(s@) {
                        lemma_digits_value_prefix(s@, i + 1);
                    }
                }
                return None;
            },
        };
        let v = match m.checked_add(d) {
            Some(v) => v,
            None => {
                proof {
                    if all_digits(s@) {
                        lemma_digits_value_prefix(s@, i + 1);
                    }
                }
                return None;
            },
        };
        acc = v;
        i = i + 1;
    }
    proof {
        assert(s@.take(s@.len() as int) =~= s@);
    }
    Some(acc)
}

/// Whether the byte at `i` is optional whitespace.
fn ows_at(s: &[u8], i: usize) -> (r: bool)
    requires
        i < s@.len(),
    ensures
        r == is_ows(s@[i as int]),
{
    let c = *vstd::slice::slice_index_get(s, i);
    c == 32 || c == 9
}

/// The directive string trimmed of spaces and tabs at both ends.
pub fn trim_bytes(s: &[u8]) -> (r: Vec<u8>)
    ensures
        r@ == spec_trim(s@),
{
    let mut a: usize = 0;
    while a < s.len() && ows_at(s, a)
        invariant
            a <= s@.len(),
            forall|m: int| 0 <= m < a ==> is_ows(#[trigger] s@[m]),
        decreases s@.len() - a,
    {
        a = a + 1;
    }
    proof {
        lemma_trim_front_skip(s@, a as int);
    }
    if a == s.len() {
        let r: Vec<u8> = Vec::new();
        proof {
            assert(s@.skip(a as int) =~= Seq::<u8>::empty());
        }
        return r;
    }
    let mut b: usize = s.len();
    while b > a + 1 && ows_at(s, b - 1)
        invariant
            a < b <= s@.len(),
            forall|m: int| b <= m < s@.len() ==> is_ows(#[trigger] s@[m]),
        decreases b,
    {
        b = b - 1;
    }
    let mut r: Vec<u8> = Vec::new();
    let mut k: usize = a;
    while k < b
        invariant
            a <= k <= b <= s@.len(),
            r@ == s@.subrange(a as int, k as int),
        decreases b - k,
    {
        let c = *vstd::slice::slice_index_get(s, k);
        r.push(c);
        proof {
            assert(r@ =~= s@.subrange(a as int, k + 1));
        }
        k = k + 1;
    }
    proof {
        let t = s@.skip(a as int);
        if b == a + 1 {
            assert(!is_ows(s@[a as int]));
            assert(!is_ows(t[0]));
        } else {
            assert(!is_ows(s@[b - 1]));
            assert(!is_ows(t[b - 1 - a]));
        }
        assert(forall|m: int|
            b - a <= m < t.len() ==> is_ows(#[trigger] t[m]) || is_ows(s@[m + a]));
        lemma_trim_back_take(t, b - a);
        assert(t.take(b - a) =~= s@.subrange(a as int, b as int));
        assert(r@ == spec_trim(s@));
    }
    r
}

/// The byte strings a list of segments holds.
pub open spec fn seqs_of(vs: Seq<Vec<u8>>) -> Seq<Seq<u8>> {
    vs.map_values(|v: Vec<u8>| v@)
}

/// The comma- or equals-separated segments of a value, in order.
pub fn split_bytes(s: &[u8], sep: u8) -> (r: Vec<Vec<u8>>)
    ensures
        seqs_of(r@) == spec_split(s@, sep),
{
    let mut out: Vec<Vec<u8>> = Vec::new();
    let mut cur: Vec<u8> = Vec::new();
    proof {
        assert(s@.skip(0) =~= s@);
        let x = spec_split(s@, sep);
        assert(x.len() >= 1);
        assert(seqs_of(out@) =~= Seq::<Seq<u8>>::empty());
        assert(cur@ + x.first() =~= x.first());
        assert(x =~= seq![x.first()] + x.drop_first());
        assert(x =~= seqs_of(out@) + seq![cur@ + x.first()] + x.drop_first());
    }
    let mut i: usize = 0;
    while i < s.len()
        invariant
            i <= s@.len(),
            spec_split(s@, sep) == seqs_of(out@) + seq![
                cur@ + spec_split(s@.skip(i as int), sep).first(),
            ] + spec_split(s@.skip(i as int), sep).drop_first(),
        decreases s@.len() - i,
    {
        let ghost pre_out = out@;
        let ghost pre_cur = cur@;
        let ghost tail = s@.skip(i as int);
        proof {
            assert(tail.len() == s@.len() - i);
            assert(tail.first() == s@[i as int]);
            assert(tail.drop_first() =~= s@.skip(i + 1));
        }
        let b = *vstd::slice::slice_index_get(s, i);
        if b == sep {
            out.push(cur);
            cur = Vec::new();
            proof {
                assert(seqs_of(out@) =~= seqs_of(pre_out).push(pre_cur));
                assert(spec_split(tail, sep) == seq![Seq::<u8>::empty()] + spec_split(
                    s@.skip(i + 1),
                    sep,
                ));
                assert(spec_split(tail, sep).first() =~= Seq::<u8>::empty());
                assert(spec_split(tail, sep).drop_first() =~= spec_split(s@.skip(i + 1), sep));
                assert(pre_cur + spec_split(tail, sep).first() =~= pre_cur);
                assert(spec_split(s@, sep) =~= seqs_of(out@) + seq![
                    cur@ + spec_split(s@.skip(i + 1), sep).first(),
                ] + spec_split(s@.skip(i + 1), sep).drop_first());
            }
        } else {
            cur.push(b);
            proof {
                let rest = spec_split(s@.skip(i + 1), sep);
                assert(spec_split(tail, sep) == seq![seq![tail.first()] + rest.first()]
                    + rest.drop_first());
                assert(spec_split(tail, sep).first() =~= seq![s@[i as int]] + rest.first());
                assert(spec_split(tail, sep).drop_first() =~= rest.drop_first());
                assert(cur@ + rest.first() =~= pre_cur + spec_split(tail, sep).first());
                assert(spec_split(s@, sep) =~= seqs_of(out@) + seq![cur@ + rest.first()]
                    + rest.drop_first());
            }
        }
        i = i + 1;
    }
    proof {
        let tail = s@.skip(i as int);
        assert(tail =~= Seq::<u8>::empty());
        assert(spec_split(tail, sep) == seq![Seq::<u8>::empty()]);
        assert(spec_split(tail, sep).first() =~= Seq::<u8>::empty());
        assert(spec_split(tail, sep).drop_first() =~= Seq::<Seq<u8>>::empty());
        assert(cur@ + spec_split(tail, sep).first() =~= cur@);
    }
    let ghost pre_out = out@;
    let ghost pre_cur = cur@;
    out.push(cur);
    proof {
        assert(seqs_of(out@) =~= seqs_of(pre_out).push(pre_cur));
        assert(seqs_of(out@) =~= spec_split(s@, sep));
    }
    out
}

/// The bytes of a string, in its UTF-8 form.
pub open spec fn string_bytes(s: Seq<char>) -> Seq<u8> {
    vstd::utf8::encode_utf8(s)
}

/// ASCII upper-case letters folded to lower case; all else untouched.
pub open spec fn lower_ascii(b: u8) -> u8 {
    if 65 <= b && b <= 90 {
        (b + 32) as u8
    } else {
        b
    }
}

/// A byte string with its ASCII letters folded to lower case.
pub open spec fn lower_seq(a: Seq<u8>) -> Seq<u8> {
    a.map_values(|x: u8| lower_ascii(x))
}

/// Byte strings equal once ASCII case is folded away.
pub open spec fn ascii_eq_ignore_case(a: Seq<u8>, b: Seq<u8>) -> bool {
    lower_seq(a) == lower_seq(b)
}

pub fn bytes_eq_ignore_case(a: &[u8], b: &[u8]) -> (r: bool)
    ensures
        r == ascii_eq_ignore_case(a@, b@),
{
    if a.len() != b.len() {
        proof {
            assert(lower_seq(a@).len() != lower_seq(b@).len());
        }
        return false;
    }
    let mut i: usize = 0;
    while i < a.len()
        invariant
            i <= a@.len(),
            a@.len() == b@.len(),
            forall|m: int| 0 <= m < i ==> lower_ascii(a@[m]) == lower_ascii(b@[m]),
        decreases a@.len() - i,
    {
        let x = *vstd::slice::slice_index_get(a, i);
        let y = *vstd::slice::slice_index_get(b, i);
        let lx = if 65 <= x && x <= 90 {
            x + 32
        } else {
            x
        };
        let ly = if 65 <= y && y <= 90 {
            y + 32
        } else {
            y
        };
        if lx != ly {
            proof {
                assert(lower_seq(a@)[i as int] == lower_ascii(a@[i as int]));
                assert(lower_seq(b@)[i as int] == lower_ascii(b@[i as int]));
            }
            return false;
        }
        i = i + 1;
    }
    proof {
        assert(lower_seq(a@) =~= lower_seq(b@));
    }
    true
}

/// Header names equal up to ASCII case.
pub open spec fn header_name_matches(h: Seq<char>, n: Seq<u8>) -> bool {
    ascii_eq_ignore_case(string_bytes(h), n)
}

/// Two strings equal as header names.
pub fn str_eq_ignore_ascii_case(a: &str, b: &str) -> (r: bool)
    ensures
        r == ascii_eq_ignore_case(a.spec_bytes(), b.spec_bytes()),
{
    bytes_eq_ignore_case(a.as_bytes(), b.as_bytes())
}

/// What a header lookup returns: the value of the first entry whose name
/// matches up to ASCII case, or nothing when no name matches.
pub open spec fn header_lookup_post(
    hs: Seq<(String, String)>,
    n: Seq<u8>,
    r: Option<&String>,
) -> bool {
    match r {
        Some(v) => exists|i: int|
            0 <= i < hs.len() && header_name_matches(#[trigger] hs[i].0@, n) && *v == hs[i].1
                && (forall|j: int| 0 <= j < i ==> !header_name_matches(#[trigger] hs[j].0@, n)),
        None => forall|i: int| 0 <= i < hs.len() ==> !header_name_matches(#[trigger] hs[i].0@, n),
    }
}

/// The name of the forwarding-chain header.
pub const XFF_HEADER_NAME: &'static str = "X-Forwarded-For";

/// The name of the cache directive header, as lower-case bytes.
pub open spec fn cache_control_name() -> Seq<u8> {
    seq![99u8, 97u8, 99u8, 104u8, 101u8, 45u8, 99u8, 111u8, 110u8, 116u8, 114u8, 111u8, 108u8]
}

/// The directive that marks a response shareable: `public`.
pub open spec fn public_directive() -> Seq<u8> {
    seq![112u8, 117u8, 98u8, 108u8, 105u8, 99u8]
}

/// The key of the lifetime directive: `max-age`.
pub open spec fn max_age_key() -> Seq<u8> {
    seq![109u8, 97u8, 120u8, 45u8, 97u8, 103u8, 101u8]
}

/// One directive folded into the running (shareable, lifetime) state: a
/// trimmed `public` sets the flag; a trimmed `max-age=N` (exactly one `=`)
/// replaces the lifetime with N's parse, failed parses and all, as the
/// last occurrence wins.
pub open spec fn cc_dir_step(st: (bool, Option<u64>), d: Seq<u8>) -> (bool, Option<u64>) {
    let t = spec_trim(d);
    let parts = spec_split(t, 61);
    (
        st.0 || t == public_directive(),
        if parts.len() == 2 && parts[0] == max_age_key() {
            spec_parse_u64(parts[1])
        } else {
            st.1
        },
    )
}

pub open spec fn cc_fold_dirs(st: (bool, Option<u64>), dirs: Seq<Seq<u8>>) -> (bool, Option<u64>)
    decreases dirs.len(),
{
    if dirs.len() == 0 {
        st
    } else {
        cc_fold_dirs(cc_dir_step(st, dirs.first()), dirs.drop_first())
    }
}

pub open spec fn cc_fold_values(
    st: (bool, Option<u64>),
    values: Seq<Seq<u8>>,
) -> (bool, Option<u64>)
    decreases values.len(),
{
    if values.len() == 0 {
        st
    } else {
        cc_fold_values(cc_fold_dirs(st, spec_split(values.first(), 44)), values.drop_first())
    }
}

/// The lifetime granted by a list of cache directive values: the last
/// `max-age` seen, and only when some directive said `public`.
pub open spec fn spec_max_age(values: Seq<Seq<u8>>) -> Option<u64> {
    let st = cc_fold_values((false, None), values);
    if st.0 {
        st.1
    } else {
        None
    }
}

/// The values of the cache directive header, in order.
pub open spec fn cc_values(hs: Seq<(String, String)>) -> Seq<Seq<u8>>
    decreases hs.len(),
{
    if hs.len() == 0 {
        Seq::<Seq<u8>>::empty()
    } else {
        let rest = cc_values(hs.drop_first());
        if header_name_matches(hs.first().0@, cache_control_name()) {
            seq![string_bytes(hs.first().1@)] + rest
        } else {
            rest
        }
    }
}

/// A collection of request or response headers, in order, names kept as
/// given and matched without regard to ASCII case.
pub struct HeaderMap {
    pub entries: Vec<(String, String)>,
}

impl View for HeaderMap {
    type V = Seq<(String, String)>;

    open spec fn view(&self) -> Seq<(String, String)> {
        self.entries@
    }
}

/// Read access to a set of headers.
pub trait Headers {
    spec fn spec_headers(&self) -> Seq<(String, String)>;

    /// The value of the first header with the given name.
    fn get_header_value(&self, name: &str) -> (r: Option<&String>)
        ensures
            header_lookup_post(self.spec_headers(), name.spec_bytes(), r),
    ;

    /// The forwarding chain received with the request, if any.
    fn xff(&self) -> (r: Option<&String>)
        ensures
            header_lookup_post(self.spec_headers(), "X-Forwarded-For".spec_bytes(), r),
    ;

    /// The lifetime the cache directives grant this response.
    fn max_age(&self) -> (r: Option<u64>)
        ensures
            r == spec_max_age(cc_values(self.spec_headers())),
    ;
}

impl Headers for HeaderMap {
    open spec fn spec_headers(&self) -> Seq<(String, String)> {
        self@
    }

    fn get_header_value(&self, name: &str) -> (r: Option<&String>) {
        let mut i: usize = 0;
        while i < self.entries.len()
            invariant
                i <= self@.len(),
                forall|j: int|
                    0 <= j < i ==> !header_name_matches(#[trigger] self@[j].0@, name.spec_bytes()),
            decreases self@.len() - i,
        {
            let e = &self.entries[i];
            if str_eq_ignore_ascii_case(e.0.as_str(), name) {
                return Some(&e.1);
            }
            i = i + 1;
        }
        None
    }

    fn xff(&self) -> (r: Option<&String>) {
        self.get_header_value("X-Forwarded-For")
    }

    fn max_age(&self) -> (r: Option<u64>) {
        let ghost init: (bool, Option<u64>) = (false, None::<u64>);
        let mut cc_name: Vec<u8> = Vec::new();
        cc_name.push(99);
        cc_name.push(97);
        cc_name.push(99);
        cc_name.push(104);
        cc_name.push(101);
        cc_name.push(45);
        cc_name.push(99);
        cc_name.push(111);
        cc_name.push(110);
        cc_name.push(116);
        cc_name.push(114);
        cc_name.push(111);
        cc_name.push(108);
        let mut pub_key: Vec<u8> = Vec::new();
        pub_key.push(112);
        pub_key.push(117);
        pub_key.push(98);
        pub_key.push(108);
        pub_key.push(105);
        pub_key.push(99);
        let mut age_key: Vec<u8> = Vec::new();
        age_key.push(109);
        age_key.push(97);
        age_key.push(120);
        age_key.push(45);
        age_key.push(97);
        age_key.push(103);
        age_key.push(101);
        proof {
            assert(cc_name@ =~= cache_control_name());
            assert(pub_key@ =~= public_directive());
            assert(age_key@ =~= max_age_key());
        }
        let mut st_pub = false;
        let mut st_age: Option<u64> = None;
        proof {
            assert(self@.skip(0) =~= self@);
        }
        let mut i: usize = 0;
        while i < self.entries.len()
            invariant
                i <= self@.len(),
                cc_name@ == cache_control_name(),
                pub_key@ == public_directive(),
                age_key@ == max_age_key(),
                cc_fold_values((false, None::<u64>), cc_values(self@)) == cc_fold_values(
                    (st_pub, st_age),
                    cc_values(self@.skip(i as int)),
                ),
            decreases self@.len() - i,
        {
            let ghost entries_tail = self@.skip(i as int);
            proof {
                assert(entries_tail.first() == self@[i as int]);
                assert(entries_tail.drop_first() =~= self@.skip(i + 1));
            }
            let e = &self.entries[i];
            let name_matches = bytes_eq_ignore_case(e.0.as_str().as_bytes(), cc_name.as_slice());
            if name_matches {
                let ghost value_bytes = string_bytes(e.1@);
                let segs = split_bytes(e.1.as_str().as_bytes(), 44);
                let ghost segs_spec = spec_split(value_bytes, 44);
                proof {
                    assert(seqs_of(segs@) == segs_spec);
                    assert(cc_values(entries_tail) =~= seq![value_bytes] + cc_values(
                        self@.skip(i + 1),
                    ));
                    assert((seq![value_bytes] + cc_values(self@.skip(i + 1))).first()
                        == value_bytes);
                    assert((seq![value_bytes] + cc_values(self@.skip(i + 1))).drop_first()
                        =~= cc_values(self@.skip(i + 1)));
                    assert(cc_fold_values((st_pub, st_age), cc_values(entries_tail))
                        == cc_fold_values(
                        cc_fold_dirs((st_pub, st_age), segs_spec),
                        cc_values(self@.skip(i + 1)),
                    ));
                    assert(segs_spec.skip(0) =~= segs_spec);
                }
                let mut j: usize = 0;
                while j < segs.len()
                    invariant
                        j <= segs@.len(),
                        i < self@.len(),
                        pub_key@ == public_directive(),
                        age_key@ == max_age_key(),
                        seqs_of(segs@) == segs_spec,
                        cc_fold_values((false, None::<u64>), cc_values(self@)) == cc_fold_values(
                            cc_fold_dirs((st_pub, st_age), segs_spec.skip(j as int)),
                            cc_values(self@.skip(i + 1)),
                        ),
                    decreases segs@.len() - j,
                {
                    let ghost dirs_tail = segs_spec.skip(j as int);
                    let ghost st0 = (st_pub, st_age);
                    proof {
                        assert(dirs_tail.first() == segs_spec[j as int]);
                        assert(dirs_tail.drop_first() =~= segs_spec.skip(j + 1));
                        assert(seqs_of(segs@)[j as int] == segs@[j as int]@);
                    }
                    let t = trim_bytes(segs[j].as_slice());
                    if bytes_eq(t.as_slice(), pub_key.as_slice()) {
                        st_pub = true;
                    }
                    let parts = split_bytes(t.as_slice(), 61);
                    proof {
                        assert(seqs_of(parts@) == spec_split(t@, 61));
                        assert(parts@.len() == spec_split(t@, 61).len());
                    }
                    if parts.len() == 2 {
                        proof {
                            assert(seqs_of(parts@)[0] == parts@[0]@);
                            assert(seqs_of(parts@)[1] == parts@[1]@);
                        }
                        if bytes_eq(parts[0].as_slice(), age_key.as_slice()) {
                            st_age = parse_u64_bytes(parts[1].as_slice());
                        }
                    }
                    proof {
                        assert((st_pub, st_age) == cc_dir_step(st0, dirs_tail.first()));
                    }
                    j = j + 1;
                }
                proof {
                    assert(segs_spec.skip(segs_spec.len() as int) =~= Seq::<Seq<u8>>::empty());
                }
            } else {
                proof {
                    assert(cc_values(entries_tail) =~= cc_values(self@.skip(i + 1)));
                }
            }
            i = i + 1;
        }
        proof {
            assert(self@.skip(self@.len() as int) =~= Seq::<(String, String)>::empty());
            assert(cc_values(Seq::<(String, String)>::empty()) =~= Seq::<Seq<u8>>::empty());
        }
        if st_pub {
            st_age
        } else {
            None
        }
    }
}

/// The part of the connection host before the first `:`, or nothing when
/// no `:` occurs in it.
pub open spec fn host_prefix(h: Seq<char>) -> Option<Seq<char>>
    decreases h.len(),
{
    if h.len() == 0 {
        None
    } else if h.first() == ':' {
        Some(Seq::<char>::empty())
    } else {
        match host_prefix(h.drop_first()) {
            Some(p) => Some(seq![h.first()] + p),
            None => None,
        }
    }
}

/// What the host rule returns: the prefix before the first `:`, or the
/// empty string when the host has no port separator.
pub open spec fn spec_host(h: Seq<char>) -> Seq<char> {
    match host_prefix(h) {
        Some(p) => p,
        None => Seq::<char>::empty(),
    }
}

/// The host of the connection without its port: the part before the first
/// `:`, or empty when there is none.
pub fn get_host(host: &str) -> (r: String)
    ensures
        r@ == spec_host(host@),
{
    let n = host.unicode_len();
    proof {
        assert(host@.skip(0) =~= host@);
        assert(host@.subrange(0, 0) =~= Seq::<char>::empty());
        if host_prefix(host@) is Some {
            assert(host@.subrange(0, 0) + host_prefix(host@)->Some_0 =~= host_prefix(
                host@,
            )->Some_0);
        }
    }
    let mut i: usize = 0;
    while i < n
        invariant
            n == host@.len(),
            i <= n,
            match host_prefix(host@.skip(i as int)) {
                Some(p) => host_prefix(host@) == Some(host@.subrange(0, i as int) + p),
                None => host_prefix(host@) is None,
            },
        decreases n - i,
    {
        let ghost tail = host@.skip(i as int);
        proof {
            assert(tail.first() == host@[i as int]);
            assert(tail.drop_first() =~= host@.skip(i + 1));
        }
        if host.get_char(i) == ':' {
            let prefix = host.substring_char(0, i);
            proof {
                assert(host_prefix(tail) == Some(Seq::<char>::empty()));
                assert(host@.subrange(0, i as int) + Seq::<char>::empty() =~= host@.subrange(
                    0,
                    i as int,
                ));
                assert(prefix@ == host@.subrange(0, i as int));
            }
            return prefix.to_owned();
        }
        proof {
            match host_prefix(host@.skip(i + 1)) {
                Some(p) => {
                    assert(host_prefix(tail) == Some(seq![host@[i as int]] + p));
                    assert(host@.subrange(0, i as int) + (seq![host@[i as int]] + p)
                        =~= host@.subrange(0, i + 1) + p);
                },
                None => {
                    assert(host_prefix(tail) is None);
                },
            }
        }
        i = i + 1;
    }
    proof {
        assert(host@.skip(n as int) =~= Seq::<char>::empty());
        assert(host_prefix(host@) is None);
    }
    String::new()
}

/// Whether a request may consult or fill the cache.
pub trait Cacheable {
    spec fn spec_cacheable(&self) -> bool;

    fn is_cacheable(&self) -> (r: bool)
        ensures
            r == self.spec_cacheable(),
    ;
}

} // verus!
