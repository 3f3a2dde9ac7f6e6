use vstd::prelude::*;

use enigma_simulator::{EnigmaBuilder, EnigmaMachine};

verus! {

/// The settings of an Enigma machine that a key search varies.
pub struct EnigmaEncryptionKey {
    /// The reflector's name, one letter.
    pub reflector: char,
    /// The rotor numbers, left to right.
    pub rotors: (u8, u8, u8),
    /// The rotors' starting positions, each in `1..=26`.
    pub ring_positions: (u8, u8, u8),
    /// The ring settings, each in `1..=26`.
    pub ring_settings: (u8, u8, u8),
    /// Plugboard pairs written as `"AB CD"`.
    pub plugboard: String,
}

/// What decrypting `text` gives on an Enigma machine with these settings.
pub uninterp spec fn enigma_decryption(
    reflector: char,
    rotors: (u8, u8, u8),
    ring_settings: (u8, u8, u8),
    ring_positions: (u8, u8, u8),
    plugboard: Seq<char>,
    text: Seq<char>,
) -> Seq<char>;

/// An ASCII letter, either case.
pub open spec fn is_ascii_letter(c: char) -> bool {
    ('A' <= c && c <= 'Z') || ('a' <= c && c <= 'z')
}

/// An ASCII upper-case letter.
pub open spec fn is_upper_letter(c: char) -> bool {
    'A' <= c && c <= 'Z'
}

/// `c` with an ASCII lower-case letter turned to upper case.
pub open spec fn ascii_upper(c: char) -> char {
    if 'a' <= c && c <= 'z' {
        ((c as u32) - 32) as char
    } else {
        c
    }
}

/// Every character of `s` is ASCII.
pub open spec fn all_ascii(s: Seq<char>) -> bool {
    forall|k: int| 0 <= k < s.len() ==> (s[k] as u32) < 128
}

/// `p` is a plugboard written as two-letter groups of upper-case letters,
/// separated by single spaces, the two letters of a group different.
pub open spec fn plugboard_well_formed(p: Seq<char>) -> bool {
    &&& (p.len() == 0 || p.len() % 3 == 2)
    &&& forall|k: int|
        0 <= k < p.len() ==> if k % 3 == 2 {
            p[k] == ' '
        } else {
            is_upper_letter(p[k])
        }
    &&& forall|k: int| 0 <= k < p.len() && k % 3 == 0 ==> #[trigger] p[k] != p[k + 1]
}

/// A rotor number, a ring setting or a position lies in `lo..=hi`.
pub open spec fn each_in(t: (u8, u8, u8), lo: u8, hi: u8) -> bool {
    lo <= t.0 <= hi && lo <= t.1 <= hi && lo <= t.2 <= hi
}

/// The machine accepts these settings.
pub open spec fn key_usable(k: EnigmaEncryptionKey) -> bool {
    &&& (k.reflector == 'A' || k.reflector == 'B' || k.reflector == 'C' || k.reflector == 'a'
        || k.reflector == 'b' || k.reflector == 'c')
    &&& each_in(k.rotors, 1, 8)
    &&& each_in(k.ring_settings, 1, 26)
    &&& each_in(k.ring_positions, 1, 26)
    &&& plugboard_well_formed(k.plugboard@)
}

/// Relies on enigma_simulator's `EnigmaMachine::new` and the `EnigmaBuilder`
/// setters (reflector, rotors, ring settings, ring positions, plugboard),
/// which accept the settings that `key_usable` describes, and on
/// `EnigmaMachine::decrypt`, whose result depends on the settings and the
/// text alone. On ASCII text it does not panic.
#[verifier::external_body]
fn enigma_decrypt(key: &EnigmaEncryptionKey, text: &str) -> (r: String)
    requires
        key_usable(*key),
        all_ascii(text@),
    ensures
        r@ == enigma_decryption(
            key.reflector,
            key.rotors,
            key.ring_settings,
            key.ring_positions,
            key.plugboard@,
            text@,
        ),
{
    let machine = EnigmaMachine::new()
        .reflector(&key.reflector.to_string())
        .rotors(key.rotors.0, key.rotors.1, key.rotors.2)
        .ring_settings(key.ring_settings.0, key.ring_settings.1, key.ring_settings.2)
        .ring_positions(key.ring_positions.0, key.ring_positions.1, key.ring_positions.2)
        .plugboard(&key.plugboard)
        .unwrap();
    machine.decrypt(text)
}

/// Relies on `String::push`: appends one character.
#[verifier::external_body]
fn push_char(s: &mut String, c: char)
    ensures
        final(s)@ == old(s)@.push(c),
{
    s.push(c)
}

/// Relies on `char::to_ascii_uppercase`: maps `a..=z` to `A..=Z` and leaves
/// every other character as it is.
#[verifier::external_body]
fn to_upper(c: char) -> (r: char)
    ensures
        r == ascii_upper(c),
{
    c.to_ascii_uppercase()
}

/// Decrypts `cyphertext` on a machine set up with `key`.
pub fn decrypt(key: &EnigmaEncryptionKey, cyphertext: &str) -> (r: String)
    requires
        key_usable(*key),
        all_ascii(cyphertext@),
    ensures
        r@ == enigma_decryption(
            key.reflector,
            key.rotors,
            key.ring_settings,
            key.ring_positions,
            key.plugboard@,
            cyphertext@,
        ),
{
    enigma_decrypt(key, cyphertext)
}

impl Clone for EnigmaEncryptionKey {
    fn clone(&self) -> (r: Self)
        ensures
            r.reflector == self.reflector,
            r.rotors == self.rotors,
            r.ring_positions == self.ring_positions,
            r.ring_settings == self.ring_settings,
            r.plugboard@ == self.plugboard@,
    {
        EnigmaEncryptionKey {
            reflector: self.reflector,
            rotors: self.rotors,
            ring_positions: self.ring_positions,
            ring_settings: self.ring_settings,
            plugboard: self.plugboard.clone(),
        }
    }
}

impl EnigmaEncryptionKey {
    /// Tells whether [`decrypt`] accepts this key.
    pub fn is_usable(&self) -> (r: bool)
        ensures
            r == key_usable(*self),
    {
        let c = self.reflector;
        if !(c == 'A' || c == 'B' || c == 'C' || c == 'a' || c == 'b' || c == 'c') {
            return false;
        }
        if !(1 <= self.rotors.0 && self.rotors.0 <= 8 && 1 <= self.rotors.1 && self.rotors.1 <= 8
            && 1 <= self.rotors.2 && self.rotors.2 <= 8) {
            return false;
        }
        if !(1 <= self.ring_settings.0 && self.ring_settings.0 <= 26 && 1 <= self.ring_settings.1
            && self.ring_settings.1 <= 26 && 1 <= self.ring_settings.2 && self.ring_settings.2
            <= 26) {
            return false;
        }
        if !(1 <= self.ring_positions.0 && self.ring_positions.0 <= 26 && 1
            <= self.ring_positions.1 && self.ring_positions.1 <= 26 && 1 <= self.ring_positions.2
            && self.ring_positions.2 <= 26) {
            return false;
        }
        plugboard_is_well_formed(self.plugboard.as_str())
    }
}

/// Tells whether `p` is a plugboard written as `plugboard_well_formed` says.
fn plugboard_is_well_formed(p: &str) -> (r: bool)
    ensures
        r == plugboard_well_formed(p@),
{
    let n = p.unicode_len();
    if !(n == 0 || n % 3 == 2) {
        return false;
    }
    let mut i: usize = 0;
    while i < n
        invariant
            n == p@.len(),
            n == 0 || n % 3 == 2,
            i <= n,
            forall|k: int|
                0 <= k < i ==> if k % 3 == 2 {
                    p@[k] == ' '
                } else {
                    is_upper_letter(p@[k])
                },
            forall|k: int| 0 <= k < i && k % 3 == 0 ==> #[trigger] p@[k] != p@[k + 1],
        decreases n - i,
    {
        let c = p.get_char(i);
        if i % 3 == 2 {
            if c != ' ' {
                return false;
            }
        } else {
            if !('A' <= c && c <= 'Z') {
                return false;
            }
            if i % 3 == 0 && c == p.get_char(i + 1) {
                return false;
            }
        }
        i = i + 1;
    }
    true
}

/// The letters of `s`, in upper case, everything else dropped.
pub open spec fn standardized(s: Seq<char>) -> Seq<char>
    decreases s.len(),
{
    if s.len() == 0 {
        seq![]
    } else if is_ascii_letter(s.last()) {
        standardized(s.drop_last()).push(ascii_upper(s.last()))
    } else {
        standardized(s.drop_last())
    }
}

/// Keeps the ASCII letters of `text`, in upper case.
pub fn _standardize_ascii_text(text: &str) -> (r: String)
    ensures
        r@ == standardized(text@),
{
    let n = text.unicode_len();
    let mut r = String::new();
    let mut i: usize = 0;
    while i < n
        invariant
            n == text@.len(),
            i <= n,
            r@ == standardized(text@.take(i as int)),
        decreases n - i,
    {
        let c = text.get_char(i);
        assert(text@.take(i + 1).drop_last() =~= text@.take(i as int));
        if ('A' <= c && c <= 'Z') || ('a' <= c && c <= 'z') {
            push_char(&mut r, to_upper(c));
        }
        i = i + 1;
    }
    assert(text@.take(n as int) =~= text@);
    r
}

/// How many characters of `t` have the code `code`.
pub open spec fn occurrences(t: Seq<char>, code: int) -> nat
    decreases t.len(),
{
    if t.len() == 0 {
        0
    } else {
        occurrences(t.drop_last(), code) + if t.last() as u32 == code {
            1nat
        } else {
            0nat
        }
    }
}

/// How many characters of `t` are among the first `k` upper-case letters.
pub open spec fn letters_counted(t: Seq<char>, k: nat) -> nat
    decreases k,
{
    if k == 0 {
        0
    } else {
        letters_counted(t, (k - 1) as nat) + occurrences(t, 65 + k - 1)
    }
}

/// The number of ordered pairs of different positions of `t` that hold the
/// same letter, over the first `k` upper-case letters.
pub open spec fn same_letter_pairs(t: Seq<char>, k: nat) -> nat
    decreases k,
{
    if k == 0 {
        0
    } else {
        let f = occurrences(t, 65 + k - 1);
        same_letter_pairs(t, (k - 1) as nat) + f * (f - 1) as nat
    }
}

proof fn lemma_occurrences_bound(t: Seq<char>, code: int)
    ensures
        occurrences(t, code) <= t.len(),
    decreases t.len(),
{
    if t.len() > 0 {
        lemma_occurrences_bound(t.drop_last(), code);
    }
}

/// Adding one character counts it under at most one letter.
proof fn lemma_letters_counted_step(t: Seq<char>, k: nat)
    requires
        t.len() > 0,
    ensures
        letters_counted(t, k) <= letters_counted(t.drop_last(), k) + 1,
        letters_counted(t, k) >= letters_counted(t.drop_last(), k),
        (t.last() as u32) < 65 || (t.last() as u32) >= 65 + k ==> letters_counted(t, k)
            == letters_counted(t.drop_last(), k),
    decreases k,
{
    if k > 0 {
        lemma_letters_counted_step(t, (k - 1) as nat);
    }
}

proof fn lemma_letters_counted_bound(t: Seq<char>, k: nat)
    ensures
        letters_counted(t, k) <= t.len(),
    decreases t.len(),
{
    if t.len() > 0 {
        lemma_letters_counted_step(t, k);
        lemma_letters_counted_bound(t.drop_last(), k);
    } else {
        lemma_letters_counted_zero(t, k);
    }
}

proof fn lemma_letters_counted_zero(t: Seq<char>, k: nat)
    requires
        t.len() == 0,
    ensures
        letters_counted(t, k) == 0,
    decreases k,
{
    if k > 0 {
        lemma_letters_counted_zero(t, (k - 1) as nat);
    }
}

proof fn lemma_same_letter_pairs_bound(t: Seq<char>, k: nat)
    ensures
        same_letter_pairs(t, k) <= letters_counted(t, k) * t.len(),
    decreases k,
{
    if k > 0 {
        lemma_same_letter_pairs_bound(t, (k - 1) as nat);
        let f = occurrences(t, 65 + k - 1);
        let n = t.len();
        let c = letters_counted(t, (k - 1) as nat);
        lemma_occurrences_bound(t, 65 + k - 1);
        assert(f * (f - 1) as nat <= f * n) by (nonlinear_arith)
            requires
                f <= n,
        ;
        assert(c * n + f * n == (c + f) * n) by (nonlinear_arith);
    }
}

/// The two integers whose quotient is the index of coincidence of `text`:
/// the number of ordered pairs of different positions holding the same
/// letter, and the number of ordered pairs of different positions, counted
/// over the letters of `text` in upper case.
pub fn coincidence_counts(text: &str) -> (r: (u128, u128))
    ensures
        r.0 == same_letter_pairs(standardized(text@), 26),
        r.1 == standardized(text@).len() * (standardized(text@).len() - 1),
{
    let n = text.unicode_len();
    let mut counts: Vec<usize> = Vec::new();
    let mut l: usize = 0;
    while l < 26
        invariant
            l <= 26,
            counts.len() == l,
            forall|j: int| 0 <= j < l ==> counts[j] == 0,
        decreases 26 - l,
    {
        counts.push(0);
        l = l + 1;
    }
    let mut total: usize = 0;
    let mut i: usize = 0;
    while i < n
        invariant
            n == text@.len(),
            i <= n,
            counts.len() == 26,
            total == standardized(text@.take(i as int)).len(),
            total <= i,
            forall|j: int|
                0 <= j < 26 ==> counts[j] == occurrences(standardized(text@.take(i as int)), 65 + j),
        decreases n - i,
    {
        let c = text.get_char(i);
        let ghost before = standardized(text@.take(i as int));
        assert(text@.take(i + 1).drop_last() =~= text@.take(i as int));
        assert(text@.take(i + 1).last() == c);
        if ('A' <= c && c <= 'Z') || ('a' <= c && c <= 'z') {
            let u = to_upper(c);
            let idx = (u as u32 - 65) as usize;
            let ghost after = before.push(u);
            assert(after.drop_last() =~= before);
            proof {
                lemma_occurrences_bound(before, 65 + idx);
            }
            counts.set(idx, counts[idx] + 1);
            total = total + 1;
            assert forall|j: int| 0 <= j < 26 implies counts[j] == occurrences(after, 65 + j) by {
                assert(occurrences(after, 65 + j) == occurrences(before, 65 + j) + if u as u32 == 65 + j {
                    1nat
                } else {
                    0nat
                });
            }
        }
        i = i + 1;
    }
    assert(text@.take(n as int) =~= text@);
    let ghost t = standardized(text@);
    proof {
        lemma_letters_counted_bound(t, 26);
    }
    let mut pairs: u128 = 0;
    let mut k: usize = 0;
    while k < 26
        invariant
            k <= 26,
            counts.len() == 26,
            total == t.len(),
            total <= usize::MAX,
            letters_counted(t, 26) <= t.len(),
            forall|j: int| 0 <= j < 26 ==> counts[j] == occurrences(t, 65 + j),
            pairs == same_letter_pairs(t, k as nat),
        decreases 26 - k,
    {
        let f = counts[k] as u128;
        proof {
            lemma_same_letter_pairs_bound(t, (k + 1) as nat);
            lemma_letters_counted_monotone(t, (k + 1) as nat, 26);
            assert(same_letter_pairs(t, (k + 1) as nat) <= t.len() * t.len()) by (nonlinear_arith)
                requires
                    same_letter_pairs(t, (k + 1) as nat) <= letters_counted(t, (k + 1) as nat) * t.len(),
                    letters_counted(t, (k + 1) as nat) <= t.len(),
            ;
            assert(t.len() * t.len() <= 0xffff_ffff_ffff_ffffu128 * 0xffff_ffff_ffff_ffffu128) by (nonlinear_arith)
                requires
                    t.len() <= 0xffff_ffff_ffff_ffffu128,
            ;
            assert(same_letter_pairs(t, (k + 1) as nat) == pairs + f * (f - 1) as nat);
        }
        if f > 0 {
            assert(f * (f - 1) as nat == f * (f - 1));
            pairs = pairs + f * (f - 1);
        } else {
            assert(f * (f - 1) as nat == 0) by (nonlinear_arith)
                requires
                    f == 0,
            ;
        }
        k = k + 1;
    }
    let nn = total as u128;
    let all = if nn > 0 {
        assert(nn * (nn - 1) <= 0xffff_ffff_ffff_ffffu128 * 0xffff_ffff_ffff_ffffu128) by (nonlinear_arith)
            requires
                0 < nn <= 0xffff_ffff_ffff_ffffu128,
        ;
        nn * (nn - 1)
    } else {
        assert(t.len() * (t.len() - 1) == 0) by (nonlinear_arith)
            requires
                t.len() == 0,
        ;
        0
    };
    assert(nn == t.len());
    (pairs, all)
}

proof fn lemma_letters_counted_monotone(t: Seq<char>, j: nat, k: nat)
    requires
        j <= k,
    ensures
        letters_counted(t, j) <= letters_counted(t, k),
    decreases k - j,
{
    if j < k {
        lemma_letters_counted_monotone(t, j, (k - 1) as nat);
    }
}

/// The plugboard pairs written as two-letter groups separated by spaces.
pub open spec fn plugboard_text(pairs: Seq<(char, char)>) -> Seq<char>
    decreases pairs.len(),
{
    if pairs.len() == 0 {
        seq![]
    } else if pairs.len() == 1 {
        seq![pairs[0].0, pairs[0].1]
    } else {
        plugboard_text(pairs.drop_last()) + seq![' ', pairs.last().0, pairs.last().1]
    }
}

/// Writes plugboard pairs as `"AB CD"`.
pub fn convert_plugboard_to_string(plugboard: &Vec<(char, char)>) -> (r: String)
    ensures
        r@ == plugboard_text(plugboard@),
{
    let mut r = String::new();
    let mut i: usize = 0;
    while i < plugboard.len()
        invariant
            i <= plugboard.len(),
            r@ == plugboard_text(plugboard@.take(i as int)),
        decreases plugboard.len() - i,
    {
        let (a, b) = plugboard[i];
        let ghost before = r@;
        if i > 0 {
            push_char(&mut r, ' ');
        }
        push_char(&mut r, a);
        push_char(&mut r, b);
        assert(plugboard@.take(i + 1).drop_last() =~= plugboard@.take(i as int));
        if i > 0 {
            assert(r@ =~= before + seq![' ', a, b]);
        } else {
            assert(r@ =~= seq![a, b]);
        }
        i = i + 1;
    }
    assert(plugboard@.take(plugboard.len() as int) =~= plugboard@);
    r
}

/// Three different rotors out of the first four.
pub open spec fn is_rotor_choice(t: (u8, u8, u8)) -> bool {
    each_in(t, 1, 4) && t.0 != t.1 && t.0 != t.2 && t.1 != t.2
}

/// Orders rotor choices lexicographically.
pub open spec fn rotor_rank(t: (u8, u8, u8)) -> int {
    25 * t.0 + 5 * t.1 + t.2
}

/// A key with reflector B, these rotors, every ring setting and position 1
/// and an empty plugboard.
pub open spec fn is_fresh_key(k: EnigmaEncryptionKey, rotors: (u8, u8, u8)) -> bool {
    &&& k.reflector == 'B'
    &&& k.rotors == rotors
    &&& k.ring_positions == (1u8, 1u8, 1u8)
    &&& k.ring_settings == (1u8, 1u8, 1u8)
    &&& k.plugboard@ == Seq::<char>::empty()
}

/// One starting key for each way to place three different rotors out of the
/// first four, in lexicographic order of the rotor numbers.
pub fn get_all_rotor_orderings() -> (r: Vec<EnigmaEncryptionKey>)
    ensures
        forall|i: int| 0 <= i < r.len() ==> is_rotor_choice(r[i].rotors) && is_fresh_key(r[i], r[i].rotors),
        forall|i: int, j: int| 0 <= i < j < r.len() ==> rotor_rank(r[i].rotors) < rotor_rank(r[j].rotors),
        forall|t: (u8, u8, u8)| is_rotor_choice(t) ==> exists|i: int| 0 <= i < r.len() && r[i].rotors == t,
{
    let mut res: Vec<EnigmaEncryptionKey> = Vec::new();
    let mut rotor1: u8 = 1;
    while rotor1 < 5
        invariant
            1 <= rotor1 <= 5,
            forall|i: int| 0 <= i < res.len() ==> is_rotor_choice(res[i].rotors) && is_fresh_key(res[i], res[i].rotors),
            forall|i: int| 0 <= i < res.len() ==> rotor_rank(res[i].rotors) < 25 * rotor1,
            forall|i: int, j: int| 0 <= i < j < res.len() ==> rotor_rank(res[i].rotors) < rotor_rank(res[j].rotors),
            forall|t: (u8, u8, u8)| is_rotor_choice(t) && t.0 < rotor1 ==> exists|i: int| 0 <= i < res.len() && res[i].rotors == t,
        decreases 5 - rotor1,
    {
        let mut rotor2: u8 = 1;
        while rotor2 < 5
            invariant
                1 <= rotor1 < 5,
                1 <= rotor2 <= 5,
                forall|i: int| 0 <= i < res.len() ==> is_rotor_choice(res[i].rotors) && is_fresh_key(res[i], res[i].rotors),
                forall|i: int| 0 <= i < res.len() ==> rotor_rank(res[i].rotors) < 25 * rotor1 + 5 * rotor2,
                forall|i: int, j: int| 0 <= i < j < res.len() ==> rotor_rank(res[i].rotors) < rotor_rank(res[j].rotors),
                forall|t: (u8, u8, u8)|
                    is_rotor_choice(t) && (t.0 < rotor1 || (t.0 == rotor1 && t.1 < rotor2)) ==> exists|i: int|
                        0 <= i < res.len() && res[i].rotors == t,
            decreases 5 - rotor2,
        {
            let mut rotor3: u8 = 1;
            while rotor3 < 5
                invariant
                    1 <= rotor1 < 5,
                    1 <= rotor2 < 5,
                    1 <= rotor3 <= 5,
                    forall|i: int| 0 <= i < res.len() ==> is_rotor_choice(res[i].rotors) && is_fresh_key(res[i], res[i].rotors),
                    forall|i: int| 0 <= i < res.len() ==> rotor_rank(res[i].rotors) < 25 * rotor1 + 5 * rotor2 + rotor3,
                    forall|i: int, j: int| 0 <= i < j < res.len() ==> rotor_rank(res[i].rotors) < rotor_rank(res[j].rotors),
                    forall|t: (u8, u8, u8)|
                        is_rotor_choice(t) && (t.0 < rotor1 || (t.0 == rotor1 && t.1 < rotor2) || (t.0
                            == rotor1 && t.1 == rotor2 && t.2 < rotor3)) ==> exists|i: int|
                            0 <= i < res.len() && res[i].rotors == t,
                decreases 5 - rotor3,
            {
                if rotor1 != rotor2 && rotor1 != rotor3 && rotor2 != rotor3 {
                    let key = EnigmaEncryptionKey {
                        reflector: 'B',
                        rotors: (rotor1, rotor2, rotor3),
                        ring_positions: (1, 1, 1),
                        ring_settings: (1, 1, 1),
                        plugboard: String::new(),
                    };
                    let ghost before = res@;
                    res.push(key);
                    assert(forall|i: int| 0 <= i < before.len() ==> res[i] == before[i]);
                    assert forall|t: (u8, u8, u8)|
                        is_rotor_choice(t) && (t.0 < rotor1 || (t.0 == rotor1 && t.1 < rotor2) || (t.0
                            == rotor1 && t.1 == rotor2 && t.2 < rotor3 + 1)) implies exists|i: int|
                            0 <= i < res.len() && res[i].rotors == t by {
                        if t == (rotor1, rotor2, rotor3) {
                            assert(res[before.len() as int].rotors == t);
                        } else {
                            let i = choose|i: int| 0 <= i < before.len() && before[i].rotors == t;
                            assert(res[i].rotors == t);
                        }
                    }
                }
                rotor3 = rotor3 + 1;
            }
            rotor2 = rotor2 + 1;
        }
        rotor1 = rotor1 + 1;
    }
    res
}

} // verus!
