use crate::text::{chars_of, string_from_chars};
use vstd::prelude::*;

verus! {

/// Number of symbols in an id digit: `0-9` then `A-Z`.
pub const BASE: u64 = 36;

/// Longest id length whose namespace size fits in a `u64`.
pub const MAX_LENGTH: usize = 12;

pub open spec fn pow36(n: nat) -> nat
    decreases n,
{
    if n == 0 {
        1
    } else {
        36 * pow36((n - 1) as nat)
    }
}

/// The symbol for digit `d` (< 36).
pub open spec fn digit_char(d: nat) -> char {
    if d < 10 {
        (('0' as u32) + d) as char
    } else {
        (('A' as u32) + (d - 10)) as char
    }
}

/// The digit a symbol stands for, upper or lower case alike.
pub open spec fn char_digit(c: char) -> Option<nat> {
    if '0' <= c && c <= '9' {
        Some((c as u32 - '0' as u32) as nat)
    } else if 'A' <= c && c <= 'Z' {
        Some((c as u32 - 'A' as u32 + 10) as nat)
    } else if 'a' <= c && c <= 'z' {
        Some((c as u32 - 'a' as u32 + 10) as nat)
    } else {
        None
    }
}

/// `num` written with exactly `len` base-36 digits, most significant first
/// (higher digits are dropped).
pub open spec fn encode_spec(num: nat, len: nat) -> Seq<char>
    decreases len,
{
    if len == 0 {
        Seq::empty()
    } else {
        encode_spec(num / 36, (len - 1) as nat).push(digit_char(num % 36))
    }
}

/// The value of a base-36 id; `None` if some symbol is not a digit.
pub open spec fn decode_spec(s: Seq<char>) -> Option<nat>
    decreases s.len(),
{
    if s.len() == 0 {
        Some(0)
    } else {
        match (decode_spec(s.drop_last()), char_digit(s.last())) {
            (Some(v), Some(d)) => Some(v * 36 + d),
            _ => None,
        }
    }
}

/// Generator of short, case-insensitive alphanumeric ids ("00", "A7", ...);
/// moves to one more digit when the current length is used up.
#[derive(Debug, Clone)]
pub struct IdGenerator {
    length: usize,
    counter: u64,
    max_value: u64,
}

fn digit_to_char(d: u64) -> (c: char)
    requires
        d < 36,
    ensures
        c == digit_char(d as nat),
{
    if d < 10 {
        ((('0' as u32) + d as u32) as u8) as char
    } else {
        ((('A' as u32) + (d as u32 - 10)) as u8) as char
    }
}

fn char_to_digit(c: char) -> (r: Option<u64>)
    ensures
        r matches Some(d) ==> char_digit(c) == Some(d as nat),
        r is None <==> char_digit(c) is None,
{
    if '0' <= c && c <= '9' {
        Some((c as u32 - '0' as u32) as u64)
    } else if 'A' <= c && c <= 'Z' {
        Some((c as u32 - 'A' as u32 + 10) as u64)
    } else if 'a' <= c && c <= 'z' {
        Some((c as u32 - 'a' as u32 + 10) as u64)
    } else {
        None
    }
}

proof fn lemma_pow36_bound(n: nat)
    requires
        n <= 12,
    ensures
        1 <= pow36(n) <= pow36(12),
        pow36(12) == 4738381338321616896,
    decreases n,
{
    reveal_with_fuel(pow36, 13);
    if n > 0 {
        lemma_pow36_bound((n - 1) as nat);
    }
}

proof fn lemma_decode_bound(s: Seq<char>)
    ensures
        decode_spec(s) matches Some(v) ==> v < pow36(s.len()),
    decreases s.len(),
{
    if s.len() > 0 {
        lemma_decode_bound(s.drop_last());
        if let Some(v) = decode_spec(s) {
            let w = decode_spec(s.drop_last())->Some_0;
            let d = char_digit(s.last())->Some_0;
            let p = pow36(s.drop_last().len());
            assert(d < 36);
            assert(w * 36 + d < 36 * p) by (nonlinear_arith)
                requires
                    w < p,
                    d < 36,
            ;
        }
    }
}

proof fn lemma_decode_prefix(s: Seq<char>, i: int, j: int)
    requires
        0 <= i <= j <= s.len(),
        decode_spec(s.take(j)) is Some,
    ensures
        decode_spec(s.take(i)) is Some,
        decode_spec(s.take(i))->Some_0 <= decode_spec(s.take(j))->Some_0,
    decreases j - i,
{
    if i < j {
        assert(s.take(j).drop_last() =~= s.take(j - 1));
        lemma_decode_prefix(s, i, j - 1);
    }
}

impl IdGenerator {
    /// Length, counter and namespace size agree.
    pub closed spec fn wf(self) -> bool {
        &&& self.length <= MAX_LENGTH
        &&& self.max_value == pow36(self.length as nat)
    }

    pub closed spec fn length_spec(self) -> nat {
        self.length as nat
    }

    pub closed spec fn counter_spec(self) -> nat {
        self.counter as nat
    }

    /// A generator of two-digit ids, starting at "00".
    pub fn new() -> (r: IdGenerator)
        ensures
            r.wf(),
            r.length_spec() == 2,
            r.counter_spec() == 0,
    {
        IdGenerator::with_length(2)
    }

    /// A generator of ids with `length` digits, starting at zero.
    pub fn with_length(length: usize) -> (r: IdGenerator)
        requires
            length <= MAX_LENGTH,
        ensures
            r.wf(),
            r.length_spec() == length,
            r.counter_spec() == 0,
    {
        proof {
            lemma_pow36_bound(length as nat);
        }
        let mut max_value: u64 = 1;
        let mut i: usize = 0;
        while i < length
            invariant
                i <= length <= MAX_LENGTH,
                max_value == pow36(i as nat),
            decreases length - i,
        {
            proof {
                lemma_pow36_bound((i + 1) as nat);
            }
            max_value = max_value * BASE;
            i += 1;
        }
        IdGenerator { length, counter: 0, max_value }
    }

    /// Can `next` be called: is an id left at this length, or may the
    /// length still grow?
    pub fn can_advance(&self) -> (r: bool)
        requires
            self.wf(),
        ensures
            r == (self.counter_spec() < pow36(self.length_spec()) || self.length_spec() < MAX_LENGTH),
    {
        self.counter < self.max_value || self.length < MAX_LENGTH
    }

    /// The next id. When the current length is used up, the generator moves
    /// to one more digit and starts again from zero.
    pub fn next(&mut self) -> (r: String)
        requires
            old(self).wf(),
            old(self).counter_spec() < pow36(old(self).length_spec()) || old(self).length_spec()
                < MAX_LENGTH,
        ensures
            final(self).wf(),
            ({
                let (len, num) = if old(self).counter_spec() >= pow36(old(self).length_spec()) {
                    (old(self).length_spec() + 1, 0nat)
                } else {
                    (old(self).length_spec(), old(self).counter_spec())
                };
                &&& final(self).length_spec() == len
                &&& final(self).counter_spec() == num + 1
                &&& r@ == encode_spec(num, len)
            }),
    {
        if self.counter >= self.max_value {
            self.expand();
        }
        proof {
            lemma_pow36_bound(self.length as nat);
        }
        let id = self.encode(self.counter);
        self.counter = self.counter + 1;
        id
    }

    /// `num` as an id of the current length.
    fn encode(&self, num: u64) -> (r: String)
        ensures
            r@ == encode_spec(num as nat, self.length_spec()),
    {
        string_from_chars(&encode_digits(num, self.length))
    }

    fn expand(&mut self)
        requires
            old(self).wf(),
            old(self).length_spec() < MAX_LENGTH,
        ensures
            final(self).wf(),
            final(self).length_spec() == old(self).length_spec() + 1,
            final(self).counter_spec() == 0,
    {
        proof {
            lemma_pow36_bound((self.length + 1) as nat);
        }
        self.length = self.length + 1;
        self.max_value = self.max_value * BASE;
        self.counter = 0;
    }

    /// `id` with a leading "0": the same value with one more digit.
    pub fn upgrade_id(id: &str) -> (r: String)
        ensures
            r@ == seq!['0'] + id@,
    {
        let mut cs: Vec<char> = Vec::new();
        cs.push('0');
        let mut rest = chars_of(id);
        cs.append(&mut rest);
        string_from_chars(&cs)
    }

    /// A generator that continues after the given ids: its length is the
    /// longest id length, and its counter is one past the largest value
    /// among the decodable ids of that length.
    pub fn from_existing_ids(existing_ids: &Vec<String>) -> (r: IdGenerator)
        requires
            forall|i: int|
                0 <= i < existing_ids@.len() ==> (#[trigger] existing_ids@[i])@.len() <= MAX_LENGTH,
        ensures
            r.wf(),
            existing_ids@.len() == 0 ==> r.length_spec() == 2 && r.counter_spec() == 0,
            existing_ids@.len() > 0 ==> r.length_spec() == max_len_spec(existing_ids@)
                && r.counter_spec() == max_value_spec(existing_ids@, max_len_spec(existing_ids@))
                + 1,
    {
        if existing_ids.len() == 0 {
            return IdGenerator::new();
        }
        let mut max_len: usize = 0;
        let mut i: usize = 0;
        while i < existing_ids.len()
            invariant
                i <= existing_ids@.len(),
                max_len == max_len_spec(existing_ids@.take(i as int)),
                max_len <= MAX_LENGTH,
                forall|k: int|
                    0 <= k < existing_ids@.len() ==> (#[trigger] existing_ids@[k])@.len() <= MAX_LENGTH,
            decreases existing_ids@.len() - i,
        {
            assert(existing_ids@.take(i + 1).drop_last() =~= existing_ids@.take(i as int));
            let n = existing_ids[i].as_str().unicode_len();
            if n > max_len {
                max_len = n;
            }
            i += 1;
        }
        assert(existing_ids@.take(i as int) =~= existing_ids@);
        let mut max_counter: u64 = 0;
        let mut i: usize = 0;
        proof {
            lemma_pow36_bound(max_len as nat);
        }
        while i < existing_ids.len()
            invariant
                i <= existing_ids@.len(),
                max_len <= MAX_LENGTH,
                max_counter == max_value_spec(existing_ids@.take(i as int), max_len as nat),
                max_counter < pow36(max_len as nat),
            decreases existing_ids@.len() - i,
        {
            assert(existing_ids@.take(i + 1).drop_last() =~= existing_ids@.take(i as int));
            assert(existing_ids@.take(i + 1).last() == existing_ids@[i as int]);
            let id = existing_ids[i].as_str();
            if id.unicode_len() == max_len {
                match IdGenerator::decode(id) {
                    Some(v) => {
                        proof {
                            lemma_decode_bound(id@);
                        }
                        if v > max_counter {
                            max_counter = v;
                        }
                    },
                    None => {
                        proof {
                            lemma_decode_bound(id@);
                            lemma_pow36_bound(max_len as nat);
                        }
                    },
                }
            }
            i += 1;
        }
        assert(existing_ids@.take(i as int) =~= existing_ids@);
        proof {
            lemma_pow36_bound(max_len as nat);
        }
        let mut generator = IdGenerator::with_length(max_len);
        generator.counter = max_counter + 1;
        generator
    }

    /// The value of an id, or `None` when a symbol is not a base-36 digit
    /// or the value does not fit in a `u64`.
    fn decode(id: &str) -> (r: Option<u64>)
        ensures
            r matches Some(v) ==> decode_spec(id@) == Some(v as nat),
            r is None ==> decode_spec(id@) is None || decode_spec(id@)->Some_0 > u64::MAX,
    {
        let cs = chars_of(id);
        let mut result: u64 = 0;
        let mut i: usize = 0;
        while i < cs.len()
            invariant
                cs@ == id@,
                i <= cs@.len(),
                decode_spec(cs@.take(i as int)) == Some(result as nat),
            decreases cs@.len() - i,
        {
            assert(cs@.take(i + 1).drop_last() =~= cs@.take(i as int));
            assert(cs@.take(i + 1).last() == cs@[i as int]);
            match char_to_digit(cs[i]) {
                None => {
                    proof {
                        if decode_spec(cs@) is Some {
                            assert(cs@.take(cs@.len() as int) =~= cs@);
                            lemma_decode_prefix(cs@, i + 1, cs@.len() as int);
                        }
                    }
                    return None;
                },
                Some(d) => {
                    if result > (u64::MAX - d) / BASE {
                        proof {
                            assert(result * 36 + d > u64::MAX) by (nonlinear_arith)
                                requires
                                    result > (u64::MAX - d) / 36,
                                    d < 36,
                            ;
                            if decode_spec(cs@) is Some {
                                assert(cs@.take(cs@.len() as int) =~= cs@);
                                lemma_decode_prefix(cs@, i + 1, cs@.len() as int);
                            }
                        }
                        return None;
                    }
                    proof {
                        assert(result * 36 + d <= u64::MAX) by (nonlinear_arith)
                            requires
                                result <= (u64::MAX - d) / 36,
                                d < 36,
                        ;
                    }
                    result = result * BASE + d;
                },
            }
            i += 1;
        }
        assert(cs@.take(i as int) =~= cs@);
        Some(result)
    }
}

/// The longest length among `ids` (0 when empty).
pub open spec fn max_len_spec(ids: Seq<String>) -> nat
    decreases ids.len(),
{
    if ids.len() == 0 {
        0
    } else {
        let m = max_len_spec(ids.drop_last());
        if ids.last()@.len() > m {
            ids.last()@.len()
        } else {
            m
        }
    }
}

/// The largest value among the decodable ids of length `len` (0 if none).
pub open spec fn max_value_spec(ids: Seq<String>, len: nat) -> nat
    decreases ids.len(),
{
    if ids.len() == 0 {
        0
    } else {
        let m = max_value_spec(ids.drop_last(), len);
        let s = ids.last()@;
        if s.len() == len && decode_spec(s) is Some && decode_spec(s)->Some_0 > m {
            decode_spec(s)->Some_0
        } else {
            m
        }
    }
}

fn encode_digits(num: u64, len: usize) -> (r: Vec<char>)
    ensures
        r@ == encode_spec(num as nat, len as nat),
    decreases len,
{
    if len == 0 {
        Vec::new()
    } else {
        let mut v = encode_digits(num / BASE, len - 1);
        v.push(digit_to_char(num % BASE));
        v
    }
}

impl Default for IdGenerator {
    fn default() -> (r: IdGenerator)
        ensures
            r.wf(),
            r.length_spec() == 2,
            r.counter_spec() == 0,
    {
        IdGenerator::new()
    }
}

} // verus!
