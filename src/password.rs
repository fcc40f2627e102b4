use rand::rngs::ThreadRng;
use std::collections::HashSet;
use vstd::prelude::*;
use vstd::std_specs::hash::group_hash_axioms;
use vstd::string::StringExecFns;

use crate::options::{validation_result, PasswordOptions};
use crate::positions::generate_unique_positions;
use crate::random::random_char;

verus! {

broadcast use group_hash_axioms;

/// A decimal digit.
pub open spec fn is_digit(c: char) -> bool {
    '0' <= c <= '9'
}

/// An uppercase ASCII letter.
pub open spec fn is_upper(c: char) -> bool {
    'A' <= c <= 'Z'
}

/// A lowercase ASCII letter.
pub open spec fn is_lower(c: char) -> bool {
    'a' <= c <= 'z'
}

/// A character that a password is made of.
pub open spec fn is_alphanumeric(c: char) -> bool {
    is_digit(c) || is_upper(c) || is_lower(c)
}

/// The number of characters of `s` that satisfy `f`.
pub open spec fn count_matching(s: Seq<char>, f: spec_fn(char) -> bool) -> nat
    decreases s.len(),
{
    if s.len() == 0 {
        0
    } else {
        count_matching(s.drop_last(), f) + if f(s.last()) { 1nat } else { 0nat }
    }
}

/// The number of digits in `s`.
pub open spec fn digit_count(s: Seq<char>) -> nat {
    count_matching(s, |c: char| is_digit(c))
}

/// The number of uppercase letters in `s`.
pub open spec fn upper_count(s: Seq<char>) -> nat {
    count_matching(s, |c: char| is_upper(c))
}

/// The characters of a password for `opts`, before it is cut into
/// sequences: the right length, exactly the digits and uppercase letters
/// asked for, and lowercase letters everywhere else.
pub open spec fn is_password_stream(cs: Seq<char>, opts: PasswordOptions) -> bool {
    &&& cs.len() == opts.total_length()
    &&& digit_count(cs) == opts.digits
    &&& upper_count(cs) == opts.uppercase
    &&& forall|i: int| 0 <= i < cs.len() ==> #[trigger] is_alphanumeric(cs[i])
}

/// The `n` consecutive parts of `length` characters each at the front of `cs`.
pub open spec fn chunks_of(cs: Seq<char>, length: nat, n: nat) -> Seq<Seq<char>> {
    Seq::new(n, |k: int| cs.subrange(k * length, k * length + length))
}

/// The parts one after another, with `sep` between each two.
pub open spec fn join_with(parts: Seq<Seq<char>>, sep: Seq<char>) -> Seq<char>
    decreases parts.len(),
{
    if parts.len() == 0 {
        Seq::empty()
    } else if parts.len() == 1 {
        parts[0]
    } else {
        join_with(parts.drop_last(), sep) + sep + parts.last()
    }
}

/// The parts one after another, with nothing between them.
pub open spec fn concat(parts: Seq<Seq<char>>) -> Seq<char>
    decreases parts.len(),
{
    if parts.len() == 0 {
        Seq::empty()
    } else {
        concat(parts.drop_last()) + parts.last()
    }
}

/// The password text that the characters `cs` give for `opts`.
pub open spec fn password_text(cs: Seq<char>, opts: PasswordOptions) -> Seq<char> {
    join_with(chunks_of(cs, opts.length as nat, opts.sequences as nat), opts.separator@)
}

/// The positions of `marked` below `k`.
spec fn marked_below(marked: Set<usize>, k: int) -> Set<usize> {
    Set::new(|p: usize| p < k && marked.contains(p))
}

proof fn lemma_count_prefix(s: Seq<char>, f: spec_fn(char) -> bool, marked: Set<usize>, k: int)
    requires
        0 <= k <= s.len() <= usize::MAX,
        forall|i: usize| i < s.len() ==> (f(#[trigger] s[i as int]) <==> marked.contains(i)),
    ensures
        marked_below(marked, k).finite(),
        count_matching(s.take(k), f) == marked_below(marked, k).len(),
    decreases k,
{
    if k == 0 {
        assert(marked_below(marked, 0) =~= Set::<usize>::empty());
        assert(s.take(0) =~= Seq::<char>::empty());
    } else {
        lemma_count_prefix(s, f, marked, k - 1);
        let i = (k - 1) as usize;
        assert(s.take(k).drop_last() =~= s.take(k - 1));
        assert(s.take(k).last() == s[i as int]);
        if marked.contains(i) {
            assert(marked_below(marked, k) =~= marked_below(marked, k - 1).insert(i));
        } else {
            assert(marked_below(marked, k) =~= marked_below(marked, k - 1));
        }
    }
}

/// Where `s` satisfies `f` exactly at the positions of `marked`, `s` has as
/// many such characters as `marked` has members.
proof fn lemma_count_marked(s: Seq<char>, f: spec_fn(char) -> bool, marked: Set<usize>)
    requires
        s.len() <= usize::MAX,
        forall|p: usize| marked.contains(p) ==> p < s.len(),
        forall|i: usize| i < s.len() ==> (f(#[trigger] s[i as int]) <==> marked.contains(i)),
    ensures
        marked.finite(),
        count_matching(s, f) == marked.len(),
{
    lemma_count_prefix(s, f, marked, s.len() as int);
    assert(s.take(s.len() as int) =~= s);
    assert(marked_below(marked, s.len() as int) =~= marked);
}

/// Appends one character to `s`.
/// Relies on String::push, which appends the character at the end.
#[verifier::external_body]
fn push_char(s: &mut String, c: char)
    ensures
        final(s)@ == old(s)@.push(c),
{
    s.push(c)
}

/// Cuts `chars` into `sequences` parts of `length` characters and joins
/// them with `separator`.
pub fn format_password(chars: &Vec<char>, sequences: usize, length: usize, separator: &String) -> (r: String)
    requires
        chars.len() == sequences as int * length as int,
    ensures
        r@ == join_with(chunks_of(chars@, length as nat, sequences as nat), separator@),
{
    let ghost cs = chars@;
    let mut r = String::new();
    let mut k: usize = 0;
    while k < sequences
        invariant
            cs == chars@,
            k <= sequences,
            chars.len() == sequences as int * length as int,
            r@ == join_with(chunks_of(cs, length as nat, k as nat), separator@),
        decreases sequences - k,
    {
        let ghost before = r@;
        if k > 0 {
            r.append(separator.as_str());
        }
        let ghost prefix = r@;
        proof {
            assert((k + 1) * length <= sequences * length) by (nonlinear_arith)
                requires
                    k < sequences,
            ;
            assert((k + 1) * length == k * length + length) by (nonlinear_arith);
        }
        let start: usize = k * length;
        let mut j: usize = 0;
        while j < length
            invariant
                cs == chars@,
                k < sequences,
                j <= length,
                start == k * length,
                start + length <= chars.len(),
                r@ == prefix + cs.subrange(start as int, start + j),
            decreases length - j,
        {
            push_char(&mut r, chars[start + j]);
            assert(cs.subrange(start as int, start + j + 1) =~= cs.subrange(start as int, start + j).push(
                cs[start + j],
            ));
            j = j + 1;
        }
        proof {
            let parts = chunks_of(cs, length as nat, (k + 1) as nat);
            assert(parts.drop_last() =~= chunks_of(cs, length as nat, k as nat));
            assert(parts.last() == cs.subrange(start as int, start + length));
            if k == 0 {
                assert(r@ =~= parts[0]);
            } else {
                assert(r@ =~= before + separator@ + parts.last());
            }
        }
        k = k + 1;
    }
    r
}

/// Draws the characters of a password: a digit at each position of
/// `digit_positions`, else an uppercase letter at each position of
/// `upper_positions`, else a lowercase letter.
fn draw_characters(
    total: usize,
    digit_positions: &HashSet<usize>,
    upper_positions: &HashSet<usize>,
    rng: &mut ThreadRng,
) -> (chars: Vec<char>)
    requires
        digit_positions@.disjoint(upper_positions@),
    ensures
        chars.len() == total,
        forall|i: usize| i < total ==> (is_digit(#[trigger] chars@[i as int]) <==> digit_positions@.contains(i)),
        forall|i: usize| i < total ==> (is_upper(#[trigger] chars@[i as int]) <==> upper_positions@.contains(i)),
        forall|i: int| 0 <= i < total ==> #[trigger] is_alphanumeric(chars@[i]),
{
    let mut chars: Vec<char> = Vec::with_capacity(total);
    let mut i: usize = 0;
    while i < total
        invariant
            i <= total,
            chars.len() == i,
            digit_positions@.disjoint(upper_positions@),
            forall|j: usize| j < i ==> (is_digit(#[trigger] chars@[j as int]) <==> digit_positions@.contains(j)),
            forall|j: usize| j < i ==> (is_upper(#[trigger] chars@[j as int]) <==> upper_positions@.contains(j)),
            forall|j: int| 0 <= j < i ==> #[trigger] is_alphanumeric(chars@[j]),
        decreases total - i,
    {
        let c = if digit_positions.contains(&i) {
            random_char(&mut *rng, '0', '9')
        } else if upper_positions.contains(&i) {
            random_char(&mut *rng, 'A', 'Z')
        } else {
            random_char(&mut *rng, 'a', 'z')
        };
        chars.push(c);
        i = i + 1;
    }
    chars
}

/// Generates a random password for `opts`: the digits and uppercase letters
/// go to distinct random positions, lowercase letters fill the rest, and the
/// characters are cut into `sequences` parts of `length` joined by the
/// separator.
pub fn generate_password(opts: &PasswordOptions) -> (r: String)
    requires
        validation_result(*opts) is Ok,
        opts.total_length() <= usize::MAX,
    ensures
        exists|cs: Seq<char>| is_password_stream(cs, *opts) && r@ == password_text(cs, *opts),
{
    let mut rng = rand::thread_rng();
    let total: usize = opts.sequences * opts.length;
    let mut claimed: HashSet<usize> = HashSet::new();
    let digit_positions = generate_unique_positions(opts.digits, total, &mut rng, &mut claimed);
    assert(claimed@ =~= digit_positions@);
    let upper_positions = generate_unique_positions(opts.uppercase, total, &mut rng, &mut claimed);
    let chars = draw_characters(total, &digit_positions, &upper_positions, &mut rng);
    proof {
        lemma_count_marked(chars@, |c: char| is_digit(c), digit_positions@);
        lemma_count_marked(chars@, |c: char| is_upper(c), upper_positions@);
    }
    let r = format_password(&chars, opts.sequences, opts.length, &opts.separator);
    assert(is_password_stream(chars@, *opts));
    r
}

/// Putting the first `n` parts back together gives the first `n * length`
/// characters.
proof fn lemma_concat_chunks(cs: Seq<char>, length: nat, n: nat)
    requires
        n * length <= cs.len(),
    ensures
        concat(chunks_of(cs, length, n)) =~= cs.take((n * length) as int),
    decreases n,
{
    if n > 0 {
        let parts = chunks_of(cs, length, n);
        assert((n - 1) * length + length == n * length) by (nonlinear_arith);
        assert((n - 1) * length <= n * length) by (nonlinear_arith);
        lemma_concat_chunks(cs, length, (n - 1) as nat);
        assert(parts.drop_last() =~= chunks_of(cs, length, (n - 1) as nat));
        assert(parts.last() == cs.subrange((n - 1) * length, (n - 1) * length + length));
        assert(concat(parts) == concat(parts.drop_last()) + parts.last());
        assert(cs.take(((n - 1) * length) as int) + cs.subrange((n - 1) * length, (n * length) as int)
            =~= cs.take((n * length) as int));
        assert(concat(parts) =~= cs.take((n * length) as int));
    } else {
        assert(n * length == 0) by (nonlinear_arith)
            requires
                n == 0,
        ;
        assert(cs.take(0) =~= Seq::<char>::empty());
        assert(concat(chunks_of(cs, length, n)) =~= Seq::<char>::empty());
    }
}

/// Joining parts with a separator adds the separator's length once per gap.
proof fn lemma_join_len(parts: Seq<Seq<char>>, sep: Seq<char>)
    requires
        parts.len() > 0,
    ensures
        join_with(parts, sep).len() == concat(parts).len() + (parts.len() - 1) * sep.len(),
    decreases parts.len(),
{
    if parts.len() == 1 {
        assert(parts.drop_last() =~= Seq::<Seq<char>>::empty());
        assert(concat(parts.drop_last()) =~= Seq::<char>::empty());
        assert(concat(parts) =~= parts[0]);
        assert((parts.len() - 1) * sep.len() == 0) by (nonlinear_arith)
            requires
                parts.len() == 1,
        ;
    } else {
        lemma_join_len(parts.drop_last(), sep);
        assert(join_with(parts, sep) == join_with(parts.drop_last(), sep) + sep + parts.last());
        assert(concat(parts) == concat(parts.drop_last()) + parts.last());
        assert((parts.len() - 1) * sep.len() == (parts.len() - 2) * sep.len() + sep.len())
            by (nonlinear_arith);
    }
}

/// With the separators taken out, a password is its character stream of
/// exactly `sequences * length` characters: the parts put back together
/// are that stream, and the password is longer only by one separator per
/// gap between two parts.
pub proof fn lemma_password_without_separators(cs: Seq<char>, opts: PasswordOptions)
    requires
        is_password_stream(cs, opts),
    ensures
        concat(chunks_of(cs, opts.length as nat, opts.sequences as nat)) == cs,
        cs.len() == opts.total_length(),
        opts.sequences > 0 ==> password_text(cs, opts).len() == opts.total_length() + (
        opts.sequences - 1) * opts.separator@.len(),
        opts.sequences == 0 ==> password_text(cs, opts).len() == 0,
{
    let parts = chunks_of(cs, opts.length as nat, opts.sequences as nat);
    lemma_concat_chunks(cs, opts.length as nat, opts.sequences as nat);
    assert(cs.take(cs.len() as int) =~= cs);
    if opts.sequences > 0 {
        lemma_join_len(parts, opts.separator@);
    }
}

/// A password is made of exactly `sequences` parts, each of `length`
/// alphanumeric characters, joined by the separator.
pub proof fn lemma_password_parts(cs: Seq<char>, opts: PasswordOptions)
    requires
        is_password_stream(cs, opts),
    ensures
        password_text(cs, opts) == join_with(chunks_of(cs, opts.length as nat, opts.sequences as nat), opts.separator@),
        chunks_of(cs, opts.length as nat, opts.sequences as nat).len() == opts.sequences,
        forall|k: int|
            0 <= k < opts.sequences ==> (#[trigger] chunks_of(cs, opts.length as nat, opts.sequences as nat)[k]).len()
                == opts.length,
        forall|k: int, i: int|
            0 <= k < opts.sequences && 0 <= i < opts.length ==> is_alphanumeric(
                #[trigger] chunks_of(cs, opts.length as nat, opts.sequences as nat)[k][i],
            ),
{
    let parts = chunks_of(cs, opts.length as nat, opts.sequences as nat);
    let l = opts.length as int;
    let s = opts.sequences as int;
    assert forall|k: int| 0 <= k < s implies #[trigger] parts[k].len() == l by {
        assert(k * l + l <= s * l) by (nonlinear_arith)
            requires
                0 <= k < s,
                0 <= l,
        ;
        assert(0 <= k * l) by (nonlinear_arith)
            requires
                0 <= k,
                0 <= l,
        ;
    }
    assert forall|k: int, i: int| 0 <= k < s && 0 <= i < l implies is_alphanumeric(#[trigger] parts[k][i]) by {
        assert(k * l + l <= s * l) by (nonlinear_arith)
            requires
                0 <= k < s,
                0 <= l,
        ;
        assert(0 <= k * l) by (nonlinear_arith)
            requires
                0 <= k,
                0 <= l,
        ;
        assert(parts[k][i] == cs[k * l + i]);
    }
}

/// With no sequences, or sequences of no characters, and neither digits nor
/// uppercase letters, the options are accepted and the password holds no
/// character but the separators between its empty parts.
pub proof fn lemma_empty_password(cs: Seq<char>, opts: PasswordOptions)
    requires
        opts.sequences == 0 || opts.length == 0,
        opts.digits == 0,
        opts.uppercase == 0,
        is_password_stream(cs, opts),
    ensures
        validation_result(opts) == Ok::<(), crate::options::ValidationError>(()),
        cs.len() == 0,
        forall|k: int|
            0 <= k < opts.sequences ==> (#[trigger] chunks_of(cs, opts.length as nat, opts.sequences as nat)[k]).len() == 0,
        opts.sequences == 0 ==> password_text(cs, opts).len() == 0,
        opts.sequences > 0 ==> password_text(cs, opts).len() == (opts.sequences - 1) * opts.separator@.len(),
{
    assert(opts.sequences as int * opts.length as int == 0) by (nonlinear_arith)
        requires
            opts.sequences == 0 || opts.length == 0,
    ;
    lemma_password_without_separators(cs, opts);
    lemma_password_parts(cs, opts);
}

} // verus!
