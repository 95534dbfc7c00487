//! Revision identifiers of the form `{pos}-{hash}`.

use vstd::prelude::*;

verus! {

/// The character of a decimal digit.
pub open spec fn digit_char(d: nat) -> char {
    if d == 0 { '0' }
    else if d == 1 { '1' }
    else if d == 2 { '2' }
    else if d == 3 { '3' }
    else if d == 4 { '4' }
    else if d == 5 { '5' }
    else if d == 6 { '6' }
    else if d == 7 { '7' }
    else if d == 8 { '8' }
    else { '9' }
}

/// Whether `c` is an ASCII decimal digit.
pub open spec fn is_digit(c: char) -> bool {
    '0' <= c && c <= '9'
}

/// The value of an ASCII decimal digit.
pub open spec fn digit_value(c: char) -> nat {
    ((c as u32) - ('0' as u32)) as nat
}

/// The decimal text of `n`, without sign or leading zeros.
pub open spec fn decimal(n: nat) -> Seq<char>
    decreases n,
{
    if n < 10 {
        seq![digit_char(n)]
    } else {
        decimal(n / 10).push(digit_char(n % 10))
    }
}

/// Whether every character of `s` is an ASCII decimal digit.
pub open spec fn all_digits(s: Seq<char>) -> bool {
    forall|i: int| 0 <= i < s.len() ==> is_digit(#[trigger] s[i])
}

/// The number that a string of decimal digits denotes.
pub open spec fn digits_value(s: Seq<char>) -> nat
    decreases s.len(),
{
    if s.len() == 0 {
        0
    } else {
        digits_value(s.drop_last()) * 10 + digit_value(s.last())
    }
}

/// What parsing `s` as a `u64` gives: an optional `+`, then one or more
/// decimal digits whose value fits in 64 bits.
pub open spec fn parse_u64_spec(s: Seq<char>) -> Option<u64> {
    let digits = if s.len() > 0 && s[0] == '+' { s.drop_first() } else { s };
    if digits.len() > 0 && all_digits(digits) && digits_value(digits) <= u64::MAX {
        Some(digits_value(digits) as u64)
    } else {
        None
    }
}

/// The text of the revision identifier of generation `pos` and hash `hash`.
pub open spec fn rev_text(pos: u64, hash: Seq<char>) -> Seq<char> {
    decimal(pos as nat) + seq!['-'] + hash
}

/// Whether `s` contains the character `c`.
pub open spec fn has_char(s: Seq<char>, c: char) -> bool {
    exists|i: int| 0 <= i < s.len() && s[i] == c
}

/// The index of the first `c` in `s`, where there is one.
pub open spec fn first_index_of(s: Seq<char>, c: char) -> int {
    choose|i: int| 0 <= i < s.len() && s[i] == c && forall|j: int| 0 <= j < i ==> s[j] != c
}

/// What parsing a revision identifier gives: the text before the first `-`
/// parsed as a `u64`, and the text after it.
pub open spec fn parse_rev_spec(s: Seq<char>) -> Option<(u64, Seq<char>)> {
    if !has_char(s, '-') {
        None
    } else {
        let i = first_index_of(s, '-');
        match parse_u64_spec(s.subrange(0, i)) {
            Some(pos) => Some((pos, s.subrange(i + 1, s.len() as int))),
            None => None,
        }
    }
}

/// The text of an optional string slice.
pub open spec fn opt_text(o: Option<&str>) -> Option<Seq<char>> {
    match o {
        Some(t) => Some(t@),
        None => None,
    }
}

/// Errors of this library.
#[derive(Debug, Clone, PartialEq, Eq)]
pub enum AdapterError {
    /// The named document or record does not exist.
    NotFound(String),
    /// The provided revision is not the current winner.
    Conflict,
    /// The text is not a revision identifier.
    InvalidRev(String),
    /// The request is malformed.
    BadRequest(String),
    /// The storage layer failed.
    DatabaseError(String),
}

/// Appends one character to a `String`.
#[verifier::external_body]
pub(crate) fn push_char(s: &mut String, c: char)
    ensures
        final(s)@ == old(s)@.push(c),
{
    s.push(c);
}

/// The characters of `s`, in order.
pub fn chars_of(s: &str) -> (res: Vec<char>)
    ensures
        res@ == s@,
{
    let n = s.unicode_len();
    let mut res: Vec<char> = Vec::new();
    let mut i: usize = 0;
    while i < n
        invariant
            n == s@.len(),
            i <= n,
            res@ == s@.subrange(0, i as int),
        decreases n - i,
    {
        let c = s.get_char(i);
        res.push(c);
        i = i + 1;
    }
    res
}

/// Builds a `String` from characters.
pub fn string_of(cs: &Vec<char>) -> (res: String)
    ensures
        res@ == cs@,
{
    let mut res = String::new();
    let mut i: usize = 0;
    while i < cs.len()
        invariant
            i <= cs.len(),
            res@ == cs@.subrange(0, i as int),
        decreases cs.len() - i,
    {
        push_char(&mut res, cs[i]);
        i = i + 1;
    }
    res
}

fn digit_to_char(d: u64) -> (c: char)
    requires
        d < 10,
    ensures
        c == digit_char(d as nat),
{
    if d == 0 { '0' }
    else if d == 1 { '1' }
    else if d == 2 { '2' }
    else if d == 3 { '3' }
    else if d == 4 { '4' }
    else if d == 5 { '5' }
    else if d == 6 { '6' }
    else if d == 7 { '7' }
    else if d == 8 { '8' }
    else { '9' }
}

/// The decimal digits of `n`, most significant first.
pub fn decimal_chars(n: u64) -> (res: Vec<char>)
    ensures
        res@ == decimal(n as nat),
    decreases n,
{
    if n < 10 {
        let mut v: Vec<char> = Vec::new();
        v.push(digit_to_char(n));
        v
    } else {
        let mut v = decimal_chars(n / 10);
        v.push(digit_to_char(n % 10));
        v
    }
}

/// The decimal text of `n`.
pub fn u64_to_string(n: u64) -> (res: String)
    ensures
        res@ == decimal(n as nat),
{
    let cs = decimal_chars(n);
    string_of(&cs)
}

/// Formats a revision identifier: the generation, a `-`, then the hash.
pub fn rev_string(pos: u64, hash: &str) -> (res: String)
    ensures
        res@ == rev_text(pos, hash@),
{
    let mut cs = decimal_chars(pos);
    cs.push('-');
    let hs = chars_of(hash);
    let mut i: usize = 0;
    while i < hs.len()
        invariant
            i <= hs.len(),
            hs@ == hash@,
            cs@ == decimal(pos as nat) + seq!['-'] + hash@.subrange(0, i as int),
        decreases hs.len() - i,
    {
        cs.push(hs[i]);
        i = i + 1;
    }
    proof {
        assert(hash@.subrange(0, hash@.len() as int) =~= hash@);
    }
    string_of(&cs)
}


/// A string of digits is worth at least as much as any prefix of it.
proof fn lemma_digits_value_prefix(s: Seq<char>, k: int)
    requires
        0 <= k <= s.len(),
    ensures
        digits_value(s.subrange(0, k)) <= digits_value(s),
    decreases s.len(),
{
    if k < s.len() {
        assert(s.drop_last() =~= s.subrange(0, s.len() - 1));
        lemma_digits_value_prefix(s.drop_last(), k);
        assert(s.drop_last().subrange(0, k) =~= s.subrange(0, k));
    } else {
        assert(s.subrange(0, k) =~= s);
    }
}

/// Parses the characters `cs[start..end]` as a `u64`, as `str::parse` does.
pub fn parse_u64_chars(cs: &Vec<char>, start: usize, end: usize) -> (res: Option<u64>)
    requires
        start <= end <= cs.len(),
    ensures
        res == parse_u64_spec(cs@.subrange(start as int, end as int)),
{
    let ghost s = cs@.subrange(start as int, end as int);
    let mut first = start;
    if start < end && cs[start] == '+' {
        first = start + 1;
    }
    let ghost ds = if s.len() > 0 && s[0] == '+' { s.drop_first() } else { s };
    assert(ds =~= cs@.subrange(first as int, end as int));
    if first == end {
        return None;
    }
    let mut acc: u64 = 0;
    let mut i: usize = first;
    while i < end
        invariant
            first <= i <= end <= cs.len(),
            s == cs@.subrange(start as int, end as int),
            ds == (if s.len() > 0 && s[0] == '+' { s.drop_first() } else { s }),
            ds =~= cs@.subrange(first as int, end as int),
            all_digits(cs@.subrange(first as int, i as int)),
            acc as nat == digits_value(cs@.subrange(first as int, i as int)),
        decreases end - i,
    {
        let c = cs[i];
        let ghost pre = cs@.subrange(first as int, i as int);
        let ghost next = cs@.subrange(first as int, i + 1);
        assert(next.drop_last() =~= pre);
        if !('0' <= c && c <= '9') {
            assert(ds[i - first] == c);
            return None;
        }
        let d = (c as u32 - '0' as u32) as u64;
        if acc > (u64::MAX - d) / 10 {
            proof {
                assert(acc * 10 + d > u64::MAX) by (nonlinear_arith)
                    requires acc > (u64::MAX - d) / 10, d < 10;
                if all_digits(ds) {
                    assert(next =~= ds.subrange(0, i + 1 - first));
                    lemma_digits_value_prefix(ds, i + 1 - first);
                }
            }
            return None;
        }
        proof {
            assert(acc * 10 + d <= u64::MAX) by (nonlinear_arith)
                requires acc <= (u64::MAX - d) / 10, d < 10;
        }
        acc = acc * 10 + d;
        i = i + 1;
        assert(all_digits(next)) by {
            assert forall|j: int| 0 <= j < next.len() implies is_digit(#[trigger] next[j]) by {
                if j < pre.len() {
                    assert(next[j] == pre[j]);
                }
            }
        }
    }
    Some(acc)
}

/// Splits a revision identifier at its first `-` and parses the generation
/// before it; the text after it is the hash.
pub fn parse_rev(rev_str: &str) -> (res: Result<(u64, String), AdapterError>)
    ensures
        match res {
            Ok((pos, hash)) => parse_rev_spec(rev_str@) == Some((pos, hash@)),
            Err(e) => parse_rev_spec(rev_str@) is None && (e matches AdapterError::InvalidRev(t)
                && t@ == rev_str@),
        },
{
    let cs = chars_of(rev_str);
    let mut i: usize = 0;
    while i < cs.len() && cs[i] != '-'
        invariant
            i <= cs.len(),
            cs@ == rev_str@,
            forall|j: int| 0 <= j < i ==> cs@[j] != '-',
        decreases cs.len() - i,
    {
        i = i + 1;
    }
    if i == cs.len() {
        return Err(AdapterError::InvalidRev(rev_str.to_owned()));
    }
    proof {
        let s = rev_str@;
        assert(has_char(s, '-'));
        let k = first_index_of(s, '-');
        assert(k == i as int) by {
            if k < i { } else if k > i { }
        }
    }
    match parse_u64_chars(&cs, 0, i) {
        None => Err(AdapterError::InvalidRev(rev_str.to_owned())),
        Some(pos) => {
            let mut hs: Vec<char> = Vec::new();
            let mut j: usize = i + 1;
            while j < cs.len()
                invariant
                    i + 1 <= j <= cs.len(),
                    hs@ == cs@.subrange(i + 1, j as int),
                decreases cs.len() - j,
            {
                hs.push(cs[j]);
                j = j + 1;
            }
            Ok((pos, string_of(&hs)))
        },
    }
}

/// The decimal text of a number is a nonempty run of digits that does not
/// start with `+` and denotes that number.
proof fn lemma_decimal_digits(n: nat)
    ensures
        decimal(n).len() > 0,
        all_digits(decimal(n)),
        digits_value(decimal(n)) == n,
        decimal(n)[0] != '+',
        !has_char(decimal(n), '-'),
    decreases n,
{
    if n < 10 {
        assert(digits_value(decimal(n)) == digits_value(decimal(n).drop_last()) * 10 + digit_value(decimal(n).last()));
        assert(decimal(n).drop_last() =~= Seq::<char>::empty());
    } else {
        lemma_decimal_digits(n / 10);
        let d = decimal(n);
        assert(d.drop_last() =~= decimal(n / 10));
        assert(all_digits(d)) by {
            assert forall|i: int| 0 <= i < d.len() implies is_digit(#[trigger] d[i]) by {
                if i < d.len() - 1 {
                    assert(d[i] == decimal(n / 10)[i]);
                }
            }
        }
        assert(!has_char(d, '-')) by {
            if has_char(d, '-') {
                let i = choose|i: int| 0 <= i < d.len() && d[i] == '-';
                if i < d.len() - 1 {
                    assert(d[i] == decimal(n / 10)[i]);
                }
            }
        }
        assert(d[0] == decimal(n / 10)[0]);
    }
}

/// Parsing the text of a revision identifier gives back its generation and
/// hash.
pub proof fn lemma_parse_rev_of_rev_text(pos: u64, hash: Seq<char>)
    ensures
        parse_rev_spec(rev_text(pos, hash)) == Some((pos, hash)),
{
    let d = decimal(pos as nat);
    let s = rev_text(pos, hash);
    lemma_decimal_digits(pos as nat);
    assert(s[d.len() as int] == '-');
    assert(has_char(s, '-'));
    let k = first_index_of(s, '-');
    assert(k == d.len()) by {
        if k < d.len() {
            assert(s[k] == d[k]);
        }
    }
    assert(s.subrange(0, k) =~= d);
    assert(s.subrange(k + 1, s.len() as int) =~= hash);
}


/// Whether a string of digits is written without a leading zero (the digit
/// string of 0 being `0` itself).
pub open spec fn no_leading_zero(d: Seq<char>) -> bool {
    d.len() == 1 || (d.len() > 1 && d[0] != '0')
}

/// A digit string without a leading zero has a positive value where it is
/// longer than one digit.
proof fn lemma_digits_value_positive(d: Seq<char>)
    requires
        d.len() >= 1,
        all_digits(d),
        d[0] != '0',
    ensures
        digits_value(d) >= 1,
    decreases d.len(),
{
    if d.len() > 1 {
        let e = d.drop_last();
        assert(e[0] == d[0]);
        assert(all_digits(e)) by {
            assert forall|i: int| 0 <= i < e.len() implies is_digit(#[trigger] e[i]) by {
                assert(e[i] == d[i]);
            }
        }
        lemma_digits_value_positive(e);
        assert(digits_value(d) == digits_value(e) * 10 + digit_value(d.last()));
        assert(digits_value(e) * 10 >= 10) by (nonlinear_arith)
            requires digits_value(e) >= 1;
    } else {
        assert(is_digit(d[0]));
        assert(digits_value(d.drop_last()) == 0);
    }
}

/// A digit string without a leading zero is the decimal text of its value.
proof fn lemma_decimal_of_digits(d: Seq<char>)
    requires
        all_digits(d),
        no_leading_zero(d),
    ensures
        decimal(digits_value(d)) == d,
    decreases d.len(),
{
    let n = digits_value(d);
    let c = d.last();
    assert(is_digit(c));
    let v = digit_value(c);
    assert(v < 10);
    assert(digit_char(v) == c);
    if d.len() == 1 {
        assert(digits_value(d.drop_last()) == 0);
        assert(n == v);
        assert(decimal(n) =~= d);
    } else {
        let e = d.drop_last();
        assert(e[0] == d[0]);
        assert(all_digits(e)) by {
            assert forall|i: int| 0 <= i < e.len() implies is_digit(#[trigger] e[i]) by {
                assert(e[i] == d[i]);
            }
        }
        lemma_digits_value_positive(e);
        if e.len() > 1 {
            assert(no_leading_zero(e));
        } else {
            assert(no_leading_zero(e));
        }
        lemma_decimal_of_digits(e);
        let a = digits_value(e);
        assert(n == a * 10 + v);
        assert(n / 10 == a && n % 10 == v && n >= 10) by (nonlinear_arith)
            requires n == a * 10 + v, v < 10, a >= 1;
        assert(decimal(n) == decimal(n / 10).push(digit_char(n % 10)));
        assert(decimal(n) =~= d);
    }
}

/// Where `s` holds `c`, `first_index_of` is the index of its first `c`.
proof fn lemma_first_index(s: Seq<char>, c: char)
    requires
        has_char(s, c),
    ensures
        0 <= first_index_of(s, c) < s.len(),
        s[first_index_of(s, c)] == c,
        forall|j: int| 0 <= j < first_index_of(s, c) ==> s[j] != c,
    decreases s.len(),
{
    let e = s.drop_last();
    if has_char(e, c) {
        lemma_first_index(e, c);
        let k = first_index_of(e, c);
        assert(s[k] == e[k]);
        assert forall|j: int| 0 <= j < k implies s[j] != c by {
            assert(s[j] == e[j]);
        }
    } else {
        let k = s.len() - 1;
        assert(s[k] == c) by {
            let w = choose|i: int| 0 <= i < s.len() && s[i] == c;
            if w < k {
                assert(e[w] == s[w]);
            }
        }
        assert forall|j: int| 0 <= j < k implies s[j] != c by {
            assert(s[j] == e[j]);
        }
    }
}

/// A revision identifier whose generation is written without sign and
/// without a leading zero is printed back as itself from what it parses to.
pub proof fn lemma_rev_text_of_parse(t: Seq<char>)
    requires
        parse_rev_spec(t) is Some,
        no_leading_zero(t.subrange(0, first_index_of(t, '-'))),
        t.len() > 0 && t[0] != '+',
    ensures
        parse_rev_spec(t) matches Some(p) && rev_text(p.0, p.1) == t,
{
    lemma_first_index(t, '-');
    let i = first_index_of(t, '-');
    let d = t.subrange(0, i);
    assert(d[0] == t[0]);
    assert(parse_u64_spec(d) is Some);
    lemma_decimal_of_digits(d);
    let p = parse_rev_spec(t).unwrap();
    assert(p.0 == digits_value(d));
    assert(rev_text(p.0, p.1) =~= t);
}

/// The text of the key under which a revision body is stored: the document
/// id, a NUL character, then the revision identifier.
pub open spec fn rev_key_text(doc_id: Seq<char>, rev: Seq<char>) -> Seq<char> {
    doc_id + seq!['\0'] + rev
}

/// The revision keys of a document all begin with its id and a NUL, and no
/// other document's keys do (where neither id holds a NUL): the keys of one
/// document form a block of their own in key order. Keys of distinct
/// (document, revision) pairs never coincide.
pub proof fn lemma_rev_keys_grouped(a: Seq<char>, b: Seq<char>, r: Seq<char>, s: Seq<char>)
    requires
        !a.contains('\0'),
        !b.contains('\0'),
    ensures
        (a + seq!['\0']).is_prefix_of(rev_key_text(a, r)),
        a != b ==> !(a + seq!['\0']).is_prefix_of(rev_key_text(b, s)),
        rev_key_text(a, r) == rev_key_text(b, s) ==> a == b && r == s,
{
    let p = a + seq!['\0'];
    let ka = rev_key_text(a, r);
    let kb = rev_key_text(b, s);
    assert(ka.subrange(0, p.len() as int) =~= p);
    if p.is_prefix_of(kb) {
        if a.len() < b.len() {
            assert(kb[a.len() as int] == b[a.len() as int]);
            assert(p[a.len() as int] == '\0');
            assert(kb.subrange(0, p.len() as int)[a.len() as int] == kb[a.len() as int]);
            assert(b.contains(b[a.len() as int]));
        } else if a.len() > b.len() {
            assert(kb[b.len() as int] == '\0');
            assert(p[b.len() as int] == a[b.len() as int]);
            assert(kb.subrange(0, p.len() as int)[b.len() as int] == kb[b.len() as int]);
            assert(a.contains(a[b.len() as int]));
        } else {
            assert forall|i: int| 0 <= i < a.len() implies a[i] == b[i] by {
                assert(p[i] == a[i]);
                assert(kb[i] == b[i]);
                assert(kb.subrange(0, p.len() as int)[i] == kb[i]);
            }
            assert(a =~= b);
        }
    }
    if ka == kb {
        assert(p.is_prefix_of(kb));
        if a == b {
            assert(r =~= ka.subrange(p.len() as int, ka.len() as int));
            assert(s =~= kb.subrange(p.len() as int, kb.len() as int));
        }
    }
}

/// Builds the key under which the body of revision `rev` of document
/// `doc_id` is stored.
pub fn rev_key(doc_id: &str, rev: &str) -> (res: String)
    ensures
        res@ == rev_key_text(doc_id@, rev@),
{
    let mut cs = chars_of(doc_id);
    cs.push('\0');
    let rs = chars_of(rev);
    let mut i: usize = 0;
    while i < rs.len()
        invariant
            i <= rs.len(),
            rs@ == rev@,
            cs@ == doc_id@ + seq!['\0'] + rev@.subrange(0, i as int),
        decreases rs.len() - i,
    {
        cs.push(rs[i]);
        i = i + 1;
    }
    proof {
        assert(rev@.subrange(0, rev@.len() as int) =~= rev@);
    }
    string_of(&cs)
}

/// The update sequence that a stored meta value gives: the value parsed as a
/// `u64`, or 0 where it is missing or does not parse.
pub open spec fn meta_seq_spec(value: Option<Seq<char>>) -> u64 {
    match value {
        Some(t) => match parse_u64_spec(t) {
            Some(n) => n,
            None => 0,
        },
        None => 0,
    }
}

/// Reads the update sequence out of the `value` field of the stored meta
/// record.
pub fn update_seq_from_meta(value: Option<&str>) -> (res: u64)
    ensures
        res == meta_seq_spec(opt_text(value)),
{
    match value {
        None => 0,
        Some(t) => {
            let cs = chars_of(t);
            assert(cs@.subrange(0, cs@.len() as int) =~= cs@);
            match parse_u64_chars(&cs, 0, cs.len()) {
                Some(n) => n,
                None => 0,
            }
        },
    }
}

/// The update sequence written to the meta store is read back unchanged.
pub proof fn lemma_meta_seq_round_trip(n: u64)
    ensures
        meta_seq_spec(Some(decimal(n as nat))) == n,
{
    lemma_decimal_digits(n as nat);
}

/// A sequence identifier as the changes feed receives it: a number, or an
/// opaque text whose leading number is what counts.
#[derive(Debug, Clone, PartialEq, Eq)]
pub enum SeqId {
    Num(u64),
    Str(String),
}

/// The number that a sequence identifier stands for: the number itself, or
/// the text before the first `-` parsed as a `u64`, or 0 where that fails.
pub open spec fn seq_num_spec(s: SeqId) -> u64 {
    match s {
        SeqId::Num(n) => n,
        SeqId::Str(t) => {
            let head = if has_char(t@, '-') { t@.subrange(0, first_index_of(t@, '-')) } else { t@ };
            match parse_u64_spec(head) {
                Some(n) => n,
                None => 0,
            }
        },
    }
}

impl SeqId {
    /// The number this sequence identifier stands for.
    pub fn as_num(&self) -> (res: u64)
        ensures
            res == seq_num_spec(*self),
    {
        match self {
            SeqId::Num(n) => *n,
            SeqId::Str(t) => {
                let cs = chars_of(t.as_str());
                let mut i: usize = 0;
                while i < cs.len() && cs[i] != '-'
                    invariant
                        i <= cs.len(),
                        cs@ == t@,
                        forall|j: int| 0 <= j < i ==> cs@[j] != '-',
                    decreases cs.len() - i,
                {
                    i = i + 1;
                }
                proof {
                    if i < cs.len() {
                        assert(has_char(t@, '-'));
                        let k = first_index_of(t@, '-');
                        assert(k == i as int) by {
                            if k < i { } else if k > i { }
                        }
                    } else {
                        assert(cs@.subrange(0, i as int) =~= t@);
                    }
                }
                match parse_u64_chars(&cs, 0, i) {
                    Some(n) => n,
                    None => 0,
                }
            },
        }
    }
}

} // verus!
