//! Names of snapshot files and objects.
//!
//! A name embeds the log index zero-padded to a fixed width, so that the order of names is the
//! order of indexes, on disk and in an object store alike.

use vstd::prelude::*;
use vstd::string::*;

use crate::settings::text_or;
use crate::text::{
    comes_before, cut_once, decimal, decimal_of, digit_char, digits_value, is_digit, occurs_at,
    owned, parse_unsigned, same, split_once, starts_with, strip_prefix, strip_suffix, text_before, texts,
    unsigned_body, unsigned_value, without_prefix, without_suffix,
};

verus! {

/// `n` zeros.
pub open spec fn zeros(n: nat) -> Seq<char> {
    Seq::new(n, |i: int| '0')
}

/// An index in decimal, padded with zeros to twenty digits.
pub open spec fn padded(index: u64) -> Seq<char> {
    zeros((20 - decimal_of(index as nat).len()) as nat) + decimal_of(index as nat)
}

/// The name of the snapshot at an index.
pub open spec fn name_of(index: u64) -> Seq<char> {
    "snap-"@ + padded(index) + ".bin"@
}

/// The index that a file name embeds, if it is the name of a snapshot.
pub open spec fn index_in(name: Seq<char>) -> Option<nat> {
    match without_prefix(name, "snap-"@) {
        None => None,
        Some(rest) => match without_suffix(rest, ".bin"@) {
            None => None,
            Some(digits) => unsigned_value(digits, u64::MAX as nat),
        },
    }
}

/// Whether all characters are digits.
pub open spec fn all_digits(s: Seq<char>) -> bool {
    forall|i: int| 0 <= i < s.len() ==> is_digit(#[trigger] s[i])
}

/// Ten to the power of `n`.
pub open spec fn ten_to(n: nat) -> nat
    decreases n,
{
    if n == 0 {
        1
    } else {
        10 * ten_to((n - 1) as nat)
    }
}

/// What is known of decimal digits: they are digits, spell the number, and start with a nonzero
/// one (but for zero itself), so that their number follows from its size.
proof fn lemma_decimal(n: nat)
    ensures
        decimal_of(n).len() > 0,
        all_digits(decimal_of(n)),
        digits_value(decimal_of(n)) == n,
        n < ten_to(decimal_of(n).len()),
        decimal_of(n).len() > 1 ==> n >= ten_to((decimal_of(n).len() - 1) as nat),
    decreases n,
{
    let s = decimal_of(n);
    if n < 10 {
        assert(s.drop_last() =~= Seq::<char>::empty());
        assert(digit_char(n) as nat == 48 + n);
        reveal_with_fuel(digits_value, 2);
        reveal_with_fuel(ten_to, 2);
    } else {
        lemma_decimal(n / 10);
        let before = decimal_of(n / 10);
        assert(s.drop_last() =~= before);
        assert(digit_char(n % 10) as nat == 48 + n % 10);
        assert forall|i: int| 0 <= i < s.len() implies is_digit(#[trigger] s[i]) by {
            if i < before.len() {
                assert(s[i] == before[i]);
            }
        }
        assert(ten_to(s.len()) == 10 * ten_to(before.len()));
        if before.len() > 1 {
            assert(ten_to(before.len()) == 10 * ten_to((before.len() - 1) as nat));
        } else {
            reveal_with_fuel(ten_to, 2);
        }
    }
}

proof fn lemma_ten_to_monotone(a: nat, b: nat)
    requires
        a <= b,
    ensures
        ten_to(a) <= ten_to(b),
        ten_to(a) > 0,
    decreases b,
{
    if a < b {
        lemma_ten_to_monotone(a, (b - 1) as nat);
    } else if a > 0 {
        lemma_ten_to_monotone((a - 1) as nat, (a - 1) as nat);
    }
}

/// A 64-bit number has at most twenty digits.
proof fn lemma_width(index: u64)
    ensures
        decimal_of(index as nat).len() <= 20,
{
    let n = index as nat;
    lemma_decimal(n);
    if decimal_of(n).len() > 20 {
        lemma_ten_to_monotone(20, (decimal_of(n).len() - 1) as nat);
        assert(ten_to(20) == 100_000_000_000_000_000_000) by {
            reveal_with_fuel(ten_to, 21);
        }
    }
}

proof fn lemma_zeros_value(k: nat, s: Seq<char>)
    ensures
        digits_value(zeros(k) + s) == digits_value(s),
    decreases s.len(),
{
    let all = zeros(k) + s;
    if s.len() == 0 {
        assert(all =~= zeros(k));
        lemma_only_zeros(k);
    } else {
        lemma_zeros_value(k, s.drop_last());
        assert(all.drop_last() =~= zeros(k) + s.drop_last());
    }
}

proof fn lemma_only_zeros(k: nat)
    ensures
        digits_value(zeros(k)) == 0,
    decreases k,
{
    if k > 0 {
        lemma_only_zeros((k - 1) as nat);
        assert(zeros(k).drop_last() =~= zeros((k - 1) as nat));
        assert(zeros(k).last() == '0');
    }
}

/// A padded index has twenty digits and spells the index.
proof fn lemma_padded(index: u64)
    ensures
        padded(index).len() == 20,
        all_digits(padded(index)),
        digits_value(padded(index)) == index,
{
    let n = index as nat;
    lemma_width(index);
    lemma_decimal(n);
    let k = (20 - decimal_of(n).len()) as nat;
    lemma_zeros_value(k, decimal_of(n));
    let all = padded(index);
    assert forall|i: int| 0 <= i < all.len() implies is_digit(#[trigger] all[i]) by {
        if i >= k {
            assert(all[i] == decimal_of(n)[i - k]);
        }
    }
}

/// The leading digit carries the most weight.
proof fn lemma_leading_digit(s: Seq<char>)
    requires
        s.len() > 0,
        all_digits(s),
    ensures
        digits_value(s) == (s[0] as nat - 48) * ten_to((s.len() - 1) as nat) + digits_value(
            s.drop_first(),
        ),
        digits_value(s.drop_first()) < ten_to((s.len() - 1) as nat),
        all_digits(s.drop_first()),
    decreases s.len(),
{
    let rest = s.drop_first();
    assert forall|i: int| 0 <= i < rest.len() implies is_digit(#[trigger] rest[i]) by {
        assert(rest[i] == s[i + 1]);
    }
    if s.len() == 1 {
        assert(s.drop_last() =~= Seq::<char>::empty());
        assert(rest =~= Seq::<char>::empty());
        reveal_with_fuel(digits_value, 2);
        assert(is_digit(s[0]));
        let d = s[0] as nat - 48;
        assert(d * 1 == d) by (nonlinear_arith);
        assert(ten_to(0) == 1);
    } else {
        let front = s.drop_last();
        assert forall|i: int| 0 <= i < front.len() implies is_digit(#[trigger] front[i]) by {
            assert(front[i] == s[i]);
        }
        lemma_leading_digit(front);
        assert(front.drop_first() =~= rest.drop_last());
        assert(rest.last() == s.last());
        assert(is_digit(s[s.len() - 1]));
        let d = s[0] as nat - 48;
        let p = ten_to((front.len() - 1) as nat);
        assert(ten_to((s.len() - 1) as nat) == 10 * p);
        assert((d * p) * 10 == d * (10 * p)) by (nonlinear_arith);
        assert(digits_value(front) == d * p + digits_value(front.drop_first()));
        assert(digits_value(s) == digits_value(front) * 10 + (s.last() as nat - 48));
        assert(digits_value(rest) == digits_value(rest.drop_last()) * 10 + (rest.last() as nat
            - 48));
    }
}

/// Of two equally long runs of digits the one that spells less comes first.
proof fn lemma_order_of_digits(a: Seq<char>, b: Seq<char>)
    requires
        a.len() == b.len(),
        all_digits(a),
        all_digits(b),
        digits_value(a) < digits_value(b),
    ensures
        text_before(a, b),
    decreases a.len(),
{
    if a.len() == 0 {
        assert(a =~= b);
    } else {
        lemma_leading_digit(a);
        lemma_leading_digit(b);
        let p = ten_to((a.len() - 1) as nat);
        let x = a[0] as nat - 48;
        let y = b[0] as nat - 48;
        assert(is_digit(a[0]) && is_digit(b[0]));
        if x == y {
            lemma_order_of_digits(a.drop_first(), b.drop_first());
        } else if x > y {
            assert(x * p >= y * p + p) by (nonlinear_arith)
                requires
                    x >= y + 1,
                    p >= 0,
            ;
        }
    }
}

proof fn lemma_common_prefix(prefix: Seq<char>, a: Seq<char>, b: Seq<char>)
    requires
        text_before(a, b),
    ensures
        text_before(prefix + a, prefix + b),
    decreases prefix.len(),
{
    if prefix.len() == 0 {
        assert(prefix + a =~= a);
        assert(prefix + b =~= b);
    } else {
        lemma_common_prefix(prefix.drop_first(), a, b);
        assert((prefix + a).drop_first() =~= prefix.drop_first() + a);
        assert((prefix + b).drop_first() =~= prefix.drop_first() + b);
    }
}

proof fn lemma_before_with_suffix(a: Seq<char>, b: Seq<char>, suffix: Seq<char>)
    requires
        a.len() == b.len(),
        text_before(a, b),
    ensures
        text_before(a + suffix, b + suffix),
    decreases a.len(),
{
    if a.len() > 0 {
        assert((a + suffix)[0] == a[0]);
        assert((b + suffix)[0] == b[0]);
        if a[0] == b[0] {
            lemma_before_with_suffix(a.drop_first(), b.drop_first(), suffix);
            assert((a + suffix).drop_first() =~= a.drop_first() + suffix);
            assert((b + suffix).drop_first() =~= b.drop_first() + suffix);
        }
    }
}

/// Names are ordered as the indexes they embed, so the largest name is that of the newest
/// snapshot.
pub proof fn law_names_order_as_indexes(i: u64, j: u64)
    ensures
        i < j <==> text_before(name_of(i), name_of(j)),
{
    lemma_padded(i);
    lemma_padded(j);
    if i < j {
        lemma_name_order(i, j);
    } else if j < i {
        lemma_name_order(j, i);
        if text_before(name_of(i), name_of(j)) {
            crate::text::lemma_text_before_transitive(name_of(i), name_of(j), name_of(i));
            crate::text::lemma_text_before_irreflexive(name_of(i));
        }
    } else {
        crate::text::lemma_text_before_irreflexive(name_of(i));
    }
}

proof fn lemma_name_order(i: u64, j: u64)
    requires
        i < j,
    ensures
        text_before(name_of(i), name_of(j)),
{
    lemma_padded(i);
    lemma_padded(j);
    lemma_order_of_digits(padded(i), padded(j));
    lemma_common_prefix("snap-"@, padded(i), padded(j));
    lemma_before_with_suffix("snap-"@ + padded(i), "snap-"@ + padded(j), ".bin"@);
}

/// The index is read back from the name that was made of it.
pub proof fn law_name_reads_back(index: u64)
    ensures
        index_in(name_of(index)) == Some(index as nat),
{
    lemma_padded(index);
    let digits = padded(index);
    let name = name_of(index);
    let prefix = "snap-"@;
    let suffix = ".bin"@;
    let rest = digits + suffix;
    assert(name =~= prefix + rest);
    assert(name.subrange(0, prefix.len() as int) =~= prefix);
    assert(name.skip(prefix.len() as int) =~= rest);
    assert(rest.subrange(rest.len() - suffix.len(), rest.len() as int) =~= suffix);
    assert(rest.take(rest.len() - suffix.len()) =~= digits);
    assert(is_digit(digits[0]));
    assert(unsigned_body(digits) == digits);
}

/// The name of the snapshot at an index.
pub fn snapshot_name(index: u64) -> (name: String)
    ensures
        name@ == name_of(index),
{
    let digits = decimal(index);
    proof {
        lemma_width(index);
    }
    let width: usize = digits.as_str().unicode_len();
    let mut name = owned("snap-");
    let mut i: usize = width;
    let ghost head = name@;
    assert(head + zeros(0) =~= head);
    while i < 20
        invariant
            width <= i <= 20,
            name@ == head + zeros((i - width) as nat),
        decreases 20 - i,
    {
        name.push('0');
        assert(name@ =~= head + zeros((i - width + 1) as nat));
        i = i + 1;
    }
    name.append(digits.as_str());
    name.append(".bin");
    assert(name@ =~= name_of(index));
    name
}

/// The index that a file name embeds, if it is the name of a snapshot.
pub fn snapshot_index(name: &str) -> (index: Option<u64>)
    ensures
        match index {
            Some(n) => index_in(name@) == Some(n as nat),
            None => index_in(name@) is None,
        },
{
    match strip_prefix(name, "snap-") {
        None => None,
        Some(rest) => match strip_suffix(rest.as_str(), ".bin") {
            None => None,
            Some(digits) => parse_unsigned(digits.as_str(), u64::MAX),
        },
    }
}

/// Whether `at` is the first of the names with the largest index.
pub open spec fn is_newest(names: Seq<Seq<char>>, at: int) -> bool {
    &&& 0 <= at < names.len()
    &&& index_in(names[at]) is Some
    &&& forall|i: int|
        0 <= i < names.len() && index_in(#[trigger] names[i]) is Some ==> if i < at {
            index_in(names[i])->0 < index_in(names[at])->0
        } else {
            index_in(names[i])->0 <= index_in(names[at])->0
        }
}

/// Which of the file names in a directory is the newest snapshot, if any.
pub fn newest_snapshot(names: &Vec<String>) -> (newest: Option<usize>)
    ensures
        match newest {
            Some(at) => is_newest(texts(names@), at as int),
            None => forall|i: int|
                0 <= i < names@.len() ==> index_in((#[trigger] names@[i])@) is None,
        },
{
    let mut best: Option<(u64, usize)> = None;
    let mut i: usize = 0;
    while i < names.len()
        invariant
            i <= names@.len(),
            match best {
                Some((index, at)) => at < i && index_in(names@[at as int]@) == Some(index as nat)
                    && forall|j: int|
                    0 <= j < i && index_in((#[trigger] names@[j])@) is Some ==> if j < at {
                        index_in(names@[j]@)->0 < index
                    } else {
                        index_in(names@[j]@)->0 <= index
                    },
                None => forall|j: int| 0 <= j < i ==> index_in((#[trigger] names@[j])@) is None,
            },
        decreases names@.len() - i,
    {
        match snapshot_index(names[i].as_str()) {
            Some(index) => {
                let newer = match best {
                    Some((known, _)) => index > known,
                    None => true,
                };
                if newer {
                    best = Some((index, i));
                }
            },
            None => {},
        }
        i = i + 1;
    }
    match best {
        Some((_, at)) => {
            assert forall|j: int|
                0 <= j < texts(names@).len() && index_in(
                    #[trigger] texts(names@)[j],
                ) is Some implies if j < at {
                index_in(texts(names@)[j])->0 < index_in(texts(names@)[at as int])->0
            } else {
                index_in(texts(names@)[j])->0 <= index_in(texts(names@)[at as int])->0
            } by {
                assert(texts(names@)[j] == names@[j]@);
            }
            Some(at)
        },
        None => None,
    }
}

/// Whether a file is superseded once the snapshot `kept` is on disk: another snapshot file.
pub open spec fn is_superseded(name: Seq<char>, kept: Seq<char>) -> bool {
    occurs_at(name, "snap-"@, 0) && without_suffix(name, ".bin"@) is Some && name != kept
}

/// Whether a file is superseded once the snapshot `kept` is on disk.
pub fn superseded(name: &str, kept: &str) -> (result: bool)
    ensures
        result == is_superseded(name@, kept@),
{
    starts_with(name, "snap-") && strip_suffix(name, ".bin").is_some() && !same(name, kept)
}

/// The object key of a snapshot under a prefix.
pub fn object_key(prefix: &str, name: &str) -> (key: String)
    ensures
        key@ == prefix@ + "/"@ + name@,
{
    let mut key = owned(prefix);
    key.append("/");
    key.append(name);
    key
}

/// The largest of the keys in dictionary order: that of the newest snapshot.
pub fn newest_key(keys: &Vec<String>) -> (newest: Option<usize>)
    ensures
        match newest {
            Some(at) => at < keys@.len() && forall|i: int|
                0 <= i < keys@.len() ==> !text_before(keys@[at as int]@, (#[trigger] keys@[i])@),
            None => keys@.len() == 0,
        },
{
    if keys.len() == 0 {
        return None;
    }
    let mut best: usize = 0;
    let mut i: usize = 1;
    proof {
        crate::text::lemma_text_before_irreflexive(keys@[0]@);
    }
    while i < keys.len()
        invariant
            0 < i <= keys@.len(),
            best < i,
            forall|j: int|
                0 <= j < i ==> !text_before(keys@[best as int]@, (#[trigger] keys@[j])@),
        decreases keys@.len() - i,
    {
        if comes_before(keys[best].as_str(), keys[i].as_str()) {
            proof {
                let old_best = keys@[best as int]@;
                let now = keys@[i as int]@;
                crate::text::lemma_text_before_irreflexive(now);
                assert forall|j: int| 0 <= j < i + 1 implies !text_before(
                    now,
                    (#[trigger] keys@[j])@,
                ) by {
                    if j < i && text_before(now, keys@[j]@) {
                        crate::text::lemma_text_before_transitive(old_best, now, keys@[j]@);
                    }
                }
            }
            best = i;
        }
        i = i + 1;
    }
    Some(best)
}

/// Where snapshots are kept outside the machine: an object store's bucket, the prefix of the keys,
/// the endpoint where it is not the provider's own, and the region.
#[derive(Debug, PartialEq)]
pub struct ObjectStore {
    pub bucket: String,
    pub prefix: String,
    pub endpoint: Option<String>,
    pub region: String,
}

impl ObjectStore {
    /// The store from the values of its variables. The tier is opt-in: without a bucket there is
    /// none.
    pub fn from_env(
        bucket: Option<&str>,
        prefix: Option<&str>,
        endpoint: Option<&str>,
        region: Option<&str>,
    ) -> (store: Option<ObjectStore>)
        ensures
            match (bucket, store) {
                (Some(name), Some(s)) => {
                    &&& s.bucket@ == name@
                    &&& s.prefix@ == match prefix {
                        Some(text) => text@,
                        None => "snapshots"@,
                    }
                    &&& match (endpoint, s.endpoint) {
                        (Some(text), Some(url)) => url@ == text@,
                        (None, None) => true,
                        _ => false,
                    }
                    &&& s.region@ == match region {
                        Some(text) => text@,
                        None => "us-east-1"@,
                    }
                },
                (None, None) => true,
                _ => false,
            },
    {
        match bucket {
            None => None,
            Some(name) => Some(
                ObjectStore {
                    bucket: owned(name),
                    prefix: text_or(prefix, "snapshots"),
                    endpoint: match endpoint {
                        Some(text) => Some(owned(text)),
                        None => None,
                    },
                    region: text_or(region, "us-east-1"),
                },
            ),
        }
    }

    /// Whether buckets are addressed by path: stores behind an endpoint of their own are.
    pub fn path_style(&self) -> (by_path: bool)
        ensures
            by_path == (self.endpoint is Some),
    {
        self.endpoint.is_some()
    }

    /// The key of a snapshot.
    pub fn key(&self, name: &str) -> (key: String)
        ensures
            key@ == self.prefix@ + "/"@ + name@,
    {
        object_key(self.prefix.as_str(), name)
    }
}

/// Whether an error at the creation of a bucket means that the bucket is there already.
pub fn bucket_exists(error: &str) -> (exists_already: bool)
    ensures
        exists_already == (cut_once(error@, "BucketAlreadyOwnedByYou"@) is Some || cut_once(
            error@,
            "BucketAlreadyExists"@,
        ) is Some),
{
    split_once(error, "BucketAlreadyOwnedByYou").is_some() || split_once(
        error,
        "BucketAlreadyExists",
    ).is_some()
}

/// The newest snapshot has the largest index of all that are listed; a list with a snapshot in it
/// has a newest.
pub proof fn law_the_newest_has_the_largest_index(
    names: Seq<Seq<char>>,
    at: int,
    i: int,
    index: u64,
    newest: u64,
)
    requires
        is_newest(names, at),
        0 <= i < names.len(),
        names[i] == name_of(index),
    ensures
        names[at] == name_of(newest) ==> index <= newest,
        index_in(names[at]) is Some && index <= index_in(names[at])->0,
{
    law_name_reads_back(index);
    law_name_reads_back(newest);
}

/// A written snapshot leaves none of another index standing, itself untouched, and no file that is
/// not named as a snapshot is taken for one.
pub proof fn law_other_snapshots_are_superseded(index: u64, kept: u64, name: Seq<char>)
    ensures
        is_superseded(name_of(index), name_of(kept)) <==> index != kept,
        is_superseded(name, name_of(kept)) ==> exists|rest: Seq<char>| name == #[trigger] (
            "snap-"@ + rest),
        is_superseded(name, name_of(kept)) ==> exists|rest: Seq<char>| name == #[trigger] (rest
            + ".bin"@),
{
    law_name_reads_back(index);
    law_name_reads_back(kept);
    let tail = padded(index) + ".bin"@;
    let head = "snap-"@ + padded(index);
    assert(name_of(index) =~= "snap-"@ + tail);
    assert(name_of(index) =~= head + ".bin"@);
    crate::text::law_prefixes_and_suffixes_come_off(name_of(index), "snap-"@, tail);
    crate::text::law_prefixes_and_suffixes_come_off(name_of(index), ".bin"@, head);
    if is_superseded(name, name_of(kept)) {
        let a = without_prefix(name, "snap-"@)->0;
        let b = without_suffix(name, ".bin"@)->0;
        crate::text::law_prefixes_and_suffixes_come_off(name, "snap-"@, a);
        crate::text::law_prefixes_and_suffixes_come_off(name, ".bin"@, b);
        assert(name == "snap-"@ + a);
        assert(name == b + ".bin"@);
    }
}

/// A snapshot's name is its index in twenty digits between the two marks.
pub proof fn law_a_name_spells_its_index(index: u64)
    ensures
        exists|digits: Seq<char>|
            digits.len() == 20 && name_of(index) == #[trigger] ("snap-"@ + digits + ".bin"@)
                && crate::text::unsigned_value(digits, u64::MAX as nat) == Some(index as nat),
{
    lemma_padded(index);
    let digits = padded(index);
    assert(is_digit(digits[0]));
    assert(name_of(index) == "snap-"@ + digits + ".bin"@);
}

/// The index of a snapshot is the number between the two marks of its name, padded or not; a name
/// without the marks, or without a number between them, has none.
pub proof fn law_the_index_stands_between_the_marks(name: Seq<char>, digits: Seq<char>)
    ensures
        index_in("snap-"@ + digits + ".bin"@) == crate::text::unsigned_value(
            digits,
            u64::MAX as nat,
        ),
        index_in(name) is Some ==> exists|between: Seq<char>| name == #[trigger] ("snap-"@ + between
            + ".bin"@),
{
    let whole = "snap-"@ + digits + ".bin"@;
    let tail = digits + ".bin"@;
    assert(whole =~= "snap-"@ + tail);
    crate::text::law_prefixes_and_suffixes_come_off(whole, "snap-"@, tail);
    crate::text::law_prefixes_and_suffixes_come_off(tail, ".bin"@, digits);
    if index_in(name) is Some {
        let rest = without_prefix(name, "snap-"@)->0;
        let between = without_suffix(rest, ".bin"@)->0;
        crate::text::law_prefixes_and_suffixes_come_off(name, "snap-"@, rest);
        crate::text::law_prefixes_and_suffixes_come_off(rest, ".bin"@, between);
        assert(name =~= "snap-"@ + between + ".bin"@);
    }
}

} // verus!
