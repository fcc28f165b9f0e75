//! The ISW multiplication gadget.
use super::import_sl_sc::{
    circuit_valid, new_sl_sc, repeats, reserved, share_tag, tagged, tags_in_range, ShareKind,
};
use super::sl_sc::{sources, topological, SlSharedCircuit, Var, VarSrc};
use vstd::prelude::*;

verus! {

/// The number `i` in decimal.
pub open spec fn decimal(i: nat) -> Seq<char>
    decreases i,
{
    if i < 10 {
        seq![(48 + i) as char]
    } else {
        decimal(i / 10).push((48 + i % 10) as char)
    }
}

/// What the name of a variable is made of: a letter and a number, or two.
pub ghost struct NameKey {
    pub letter: char,
    pub i: nat,
    pub j: Option<nat>,
}

/// The key of a name with one number.
pub open spec fn k1(letter: char, i: nat) -> NameKey {
    NameKey { letter, i, j: None }
}

/// The key of a name with two numbers.
pub open spec fn k2(letter: char, i: nat, j: nat) -> NameKey {
    NameKey { letter, i, j: Some(j) }
}

/// The name: the letter and the numbers in decimal, with `_` between them.
pub open spec fn name_text(k: NameKey) -> Seq<char> {
    match k.j {
        None => seq![k.letter, '_'] + decimal(k.i),
        Some(j) => seq![k.letter, '_'] + decimal(k.i) + seq!['_'] + decimal(j),
    }
}

/// The letters of the names with one number, and of those with two.
pub open spec fn key_ok(k: NameKey) -> bool {
    match k.j {
        None => k.letter == 'x' || k.letter == 'y' || k.letter == 'o',
        Some(_) => k.letter == 'r' || k.letter == 'p' || k.letter == 't' || k.letter == 'c',
    }
}

/// `format!`: a letter, `_`, and a number in decimal.
#[verifier::external_body]
fn indexed_name(letter: char, i: usize) -> (name: String)
    ensures
        name@ == name_text(k1(letter, i as nat)),
{
    format!("{}_{}", letter, i)
}

/// `format!`: a letter, `_`, a number in decimal, `_`, and a second number in decimal.
#[verifier::external_body]
fn indexed_name2(letter: char, i: usize, j: usize) -> (name: String)
    ensures
        name@ == name_text(k2(letter, i as nat, j as nat)),
{
    format!("{}_{}_{}", letter, i, j)
}

proof fn lemma_decimal_shape(i: nat)
    ensures
        decimal(i).len() >= 1,
        forall|k: int| 0 <= k < decimal(i).len() ==> 48 <= (#[trigger] decimal(i)[k]) as int <= 57,
    decreases i,
{
    if i >= 10 {
        lemma_decimal_shape(i / 10);
    }
}

proof fn lemma_decimal_injective(a: nat, b: nat)
    requires
        decimal(a) == decimal(b),
    ensures
        a == b,
    decreases a,
{
    lemma_decimal_shape(a / 10);
    lemma_decimal_shape(b / 10);
    if a < 10 && b < 10 {
        assert(decimal(a)[0] == decimal(b)[0]);
        assert(decimal(a)[0] as int == 48 + a);
        assert(decimal(b)[0] as int == 48 + b);
    } else if a >= 10 && b >= 10 {
        let da = decimal(a / 10);
        let db = decimal(b / 10);
        assert(decimal(a).last() == decimal(b).last());
        assert(decimal(a).last() as int == 48 + a % 10);
        assert(decimal(b).last() as int == 48 + b % 10);
        assert(decimal(a).drop_last() =~= da);
        assert(decimal(b).drop_last() =~= db);
        lemma_decimal_injective(a / 10, b / 10);
    } else {
        assert(decimal(a).len() == decimal(b).len());
    }
}

proof fn lemma_decimal_pair_injective(i1: nat, j1: nat, i2: nat, j2: nat)
    requires
        decimal(i1) + seq!['_'] + decimal(j1) == decimal(i2) + seq!['_'] + decimal(j2),
    ensures
        i1 == i2,
        j1 == j2,
{
    let a1 = decimal(i1);
    let a2 = decimal(i2);
    let b1 = decimal(j1);
    let b2 = decimal(j2);
    let s1 = a1 + seq!['_'] + b1;
    let s2 = a2 + seq!['_'] + b2;
    lemma_decimal_shape(i1);
    lemma_decimal_shape(i2);
    assert(s1[a1.len() as int] == '_');
    assert(s2[a2.len() as int] == '_');
    if a1.len() < a2.len() {
        assert(s2[a1.len() as int] == a2[a1.len() as int]);
    } else if a2.len() < a1.len() {
        assert(s1[a2.len() as int] == a1[a2.len() as int]);
    }
    assert(a1 =~= a2) by {
        assert forall|k: int| 0 <= k < a1.len() implies a1[k] == a2[k] by {
            assert(s1[k] == a1[k]);
            assert(s2[k] == a2[k]);
        }
    }
    assert(b1 =~= b2) by {
        assert(b1.len() == b2.len()) by {
            assert(s1.len() == s2.len());
        }
        assert forall|k: int| 0 <= k < b1.len() implies b1[k] == b2[k] by {
            assert(s1[a1.len() + 1 + k] == b1[k]);
            assert(s2[a2.len() + 1 + k] == b2[k]);
        }
    }
    lemma_decimal_injective(i1, i2);
    lemma_decimal_injective(j1, j2);
}

/// Names made of different letters or numbers differ.
proof fn lemma_names_differ(k1: NameKey, k2: NameKey)
    requires
        key_ok(k1),
        key_ok(k2),
        k1 != k2,
    ensures
        name_text(k1) != name_text(k2),
{
    let n1 = name_text(k1);
    let n2 = name_text(k2);
    if n1 == n2 {
        assert(n1[0] == k1.letter);
        assert(n2[0] == k2.letter);
        match k1.j {
            None => {
                let d1 = decimal(k1.i);
                let d2 = decimal(k2.i);
                assert(d1 =~= n1.subrange(2, n1.len() as int));
                assert(d2 =~= n2.subrange(2, n2.len() as int));
                lemma_decimal_injective(k1.i, k2.i);
            },
            Some(j1) => {
                let j2 = k2.j->0;
                let t1 = decimal(k1.i) + seq!['_'] + decimal(j1);
                let t2 = decimal(k2.i) + seq!['_'] + decimal(j2);
                assert(t1 =~= n1.subrange(2, n1.len() as int));
                assert(t2 =~= n2.subrange(2, n2.len() as int));
                lemma_decimal_pair_injective(k1.i, j1, k2.i, j2);
            },
        }
    }
}

/// No name made so begins with `input` or `output`.
proof fn lemma_name_not_reserved(k: NameKey)
    requires
        key_ok(k),
    ensures
        !reserved(name_text(k)),
{
    reveal_strlit("input");
    reveal_strlit("output");
    let n = name_text(k);
    assert(n[0] == k.letter);
    assert(n[1] == '_');
    if "input"@.is_prefix_of(n) {
        assert("input"@[0] == n[0]);
    }
    if "output"@.is_prefix_of(n) {
        assert("output"@[0] == n[0]);
        assert("output"@[1] == n[1]);
    }
}

/// The key of the product of share `i` of one input and share `j` of the other, refreshed
/// where the shares differ.
pub open spec fn ref_key(i: nat, j: nat) -> NameKey {
    if i == j {
        k2('p', i, i)
    } else {
        k2('t', i, j)
    }
}

/// The key of the sum of the first `j + 1` refreshed products of share `i`.
pub open spec fn acc_key(i: nat, j: nat) -> NameKey {
    if j == 0 {
        ref_key(i, 0)
    } else {
        k2('c', i, j)
    }
}

/// Whether variable `k` has the key `key`.
pub open spec fn has_key(keys: Seq<NameKey>, k: int, key: NameKey) -> bool {
    0 <= k < keys.len() && keys[k] == key
}

/// Whether `src` is the product, or else the sum, of the variable with the key `first` and of
/// the variable with the key `second`.
pub open spec fn combines(
    keys: Seq<NameKey>,
    src: VarSrc,
    product: bool,
    first: NameKey,
    second: NameKey,
) -> bool {
    &&& if product {
        src is Product
    } else {
        src is Sum
    }
    &&& has_key(keys, src.operands_spec()[0] as int, first)
    &&& has_key(keys, src.operands_spec()[1] as int, second)
}

/// The key of the random bit that refreshes the products of the shares `i` and `j`.
pub open spec fn mask_key(i: nat, j: nat) -> NameKey {
    if i < j {
        k2('r', j, i)
    } else {
        k2('r', i, j)
    }
}

/// Whether variable `k` is what its key tells: `x_i` and `y_i` are share `i` of the inputs;
/// `r_i_j` is a random bit; `p_i_j` is the product of `x_i` and `y_j`; `t_i_j`, for shares
/// that differ, is the sum of `p_i_j` and of the random bit of the pair; `c_i_j` is the sum
/// of the sum before it and of `t_i_j`, or `p_i_i`, and share `i` of the output where it is
/// the last; with one share, `o_0` is the product of `x_0` and `y_0`, and the output.
pub open spec fn describes(vars: Seq<Var>, keys: Seq<NameKey>, n: usize, k: int) -> bool {
    let key = keys[k];
    let v = vars[k];
    let i = key.i;
    match key.j {
        None => if key.letter == 'x' {
            i < n && v.src == VarSrc::Input(0, i as usize) && v.output_port is None
        } else if key.letter == 'y' {
            i < n && v.src == VarSrc::Input(1, i as usize) && v.output_port is None
        } else if key.letter == 'o' {
            n == 1 && i == 0 && v.output_port == Some((0usize, 0usize)) && combines(
                keys,
                v.src,
                true,
                k1('x', 0),
                k1('y', 0),
            )
        } else {
            false
        },
        Some(j) => if key.letter == 'r' {
            i < n && j < n && v.src == VarSrc::Random && v.output_port is None
        } else if key.letter == 'p' {
            n != 1 && i < n && j < n && v.output_port is None && combines(
                keys,
                v.src,
                true,
                k1('x', i),
                k1('y', j),
            )
        } else if key.letter == 't' {
            n != 1 && i < n && j < n && i != j && v.output_port is None && combines(
                keys,
                v.src,
                false,
                k2('p', i, j),
                mask_key(i, j),
            )
        } else if key.letter == 'c' {
            n != 1 && i < n && 1 <= j < n && v.output_port == (if j == n - 1 {
                Some((0usize, i as usize))
            } else {
                None
            }) && combines(keys, v.src, false, acc_key(i, (j - 1) as nat), ref_key(i, j))
        } else {
            false
        },
    }
}

/// Whether some variable has the key `key`.
pub open spec fn keyed(keys: Seq<NameKey>, key: NameKey) -> bool {
    exists|k: int| has_key(keys, k, key)
}

/// Whether there is a variable for each key of the gadget of `n` shares.
pub open spec fn complete(keys: Seq<NameKey>, n: usize) -> bool {
    &&& forall|i: nat| i < n ==> #[trigger] keyed(keys, k1('x', i))
    &&& forall|i: nat| i < n ==> #[trigger] keyed(keys, k1('y', i))
    &&& forall|i: nat, j: nat| i < n && j < n ==> #[trigger] keyed(keys, k2('r', i, j))
    &&& n == 1 ==> keyed(keys, k1('o', 0))
    &&& n != 1 ==> forall|i: nat, j: nat| i < n && j < n ==> #[trigger] keyed(keys, k2('p', i, j))
    &&& n != 1 ==> forall|i: nat, j: nat|
        i < n && j < n && i != j ==> #[trigger] keyed(keys, k2('t', i, j))
    &&& n != 1 ==> forall|i: nat, j: nat|
        i < n && 1 <= j < n ==> #[trigger] keyed(keys, k2('c', i, j))
}

/// Whether each share among `vars` is in range for a circuit of two inputs and one output of
/// `n` shares.
pub open spec fn isw_tags(vars: Seq<Var>, n: usize) -> bool {
    &&& tags_in_range(vars, n, 2, ShareKind::Input)
    &&& tags_in_range(vars, n, 1, ShareKind::Output)
}

/// Whether the key `a` comes before the key `b`: by the letter, then by the first number, then
/// by the second.
pub open spec fn key_before(a: NameKey, b: NameKey) -> bool {
    letter_rank(a.letter) < letter_rank(b.letter) || (letter_rank(a.letter) == letter_rank(
        b.letter,
    ) && (a.i < b.i || (a.i == b.i && a.j is Some && b.j is Some && a.j->0 < b.j->0)))
}

/// What holds of the variables while the gadget is built: each has the name that its key
/// tells and is what its key tells, the keys are in order, each operand comes before the
/// variable that uses it, and the shares are in range.
pub open spec fn building(vars: Seq<Var>, keys: Seq<NameKey>, n: usize) -> bool {
    &&& keys.len() == vars.len()
    &&& forall|k: int|
        0 <= k < vars.len() ==> (#[trigger] vars[k]).name@ == name_text(keys[k]) && key_ok(keys[k])
    &&& forall|k: int| 0 <= k < vars.len() ==> #[trigger] describes(vars, keys, n, k)
    &&& forall|a: int, b: int| 0 <= a < b < keys.len() ==> #[trigger] key_before(keys[a], keys[b])
    &&& topological(sources(vars))
    &&& isw_tags(vars, n)
}

/// Whether `vars` is the ISW multiplication of `n` shares, its variables named by `keys`: the
/// shares of the first input, those of the second, the random bits, the products, the
/// refreshed products, the sums, each kind in the order of its numbers.
pub open spec fn is_isw(vars: Seq<Var>, keys: Seq<NameKey>, n: usize) -> bool {
    building(vars, keys, n) && complete(keys, n)
}

/// Whether the first variables are the shares of the two inputs, in order, and no other
/// variable is a share of an input.
pub open spec fn inputs_placed(
    vars: Seq<Var>,
    keys: Seq<NameKey>,
    n: usize,
    nx: int,
    ny: int,
) -> bool {
    &&& forall|k: int|
        0 <= k < nx ==> (#[trigger] vars[k]).src == VarSrc::Input(0, k as usize) && keys[k] == k1(
            'x',
            k as nat,
        )
    &&& forall|k: int|
        0 <= k < ny ==> (#[trigger] vars[n + k]).src == VarSrc::Input(1, k as usize) && keys[n + k]
            == k1('y', k as nat)
    &&& forall|k: int|
        0 <= k < vars.len() && (#[trigger] vars[k]).src is Input ==> k < nx || n <= k < n + ny
}

/// Whether `outs` lists the variables that are a share of the output, in the order of the
/// shares.
pub open spec fn outputs_placed(vars: Seq<Var>, outs: Seq<usize>) -> bool {
    &&& forall|t: int|
        0 <= t < outs.len() ==> (#[trigger] outs[t]) < vars.len() && vars[outs[t] as int].output_port
            == Some((0usize, t as usize))
    &&& forall|k: int|
        0 <= k < vars.len() && (#[trigger] vars[k]).output_port is Some ==> exists|t: int|
            0 <= t < outs.len() && #[trigger] outs[t] == k
}

/// The key of the entry in row `a` and column `b` of a table: of the random bits, of the
/// products, or of the refreshed products.
pub open spec fn key_at(kind: nat, a: nat, b: nat) -> NameKey {
    if kind == 0 {
        k2('r', a, b)
    } else if kind == 1 {
        k2('p', a, b)
    } else {
        ref_key(a, b)
    }
}

/// Whether each entry of the row is the variable of its key.
pub open spec fn row_keyed(keys: Seq<NameKey>, row: Seq<usize>, kind: nat, a: nat) -> bool {
    forall|b: int|
        0 <= b < row.len() ==> has_key(keys, (#[trigger] row[b]) as int, key_at(kind, a, b as nat))
}

/// Whether each entry of the table is the variable of its key.
pub open spec fn rows_keyed(keys: Seq<NameKey>, table: Seq<Vec<usize>>, kind: nat) -> bool {
    forall|a: int| 0 <= a < table.len() ==> row_keyed(keys, (#[trigger] table[a])@, kind, a as nat)
}

proof fn lemma_row_keyed_push(keys: Seq<NameKey>, key: NameKey, row: Seq<usize>, kind: nat, a: nat)
    requires
        row_keyed(keys, row, kind, a),
    ensures
        row_keyed(keys.push(key), row, kind, a),
{
    assert forall|b: int| 0 <= b < row.len() implies has_key(
        keys.push(key),
        (#[trigger] row[b]) as int,
        key_at(kind, a, b as nat),
    ) by {
        assert(has_key(keys, row[b] as int, key_at(kind, a, b as nat)));
    }
}

proof fn lemma_rows_keyed_push(keys: Seq<NameKey>, key: NameKey, table: Seq<Vec<usize>>, kind: nat)
    requires
        rows_keyed(keys, table, kind),
    ensures
        rows_keyed(keys.push(key), table, kind),
{
    assert forall|a: int| 0 <= a < table.len() implies row_keyed(
        keys.push(key),
        (#[trigger] table[a])@,
        kind,
        a as nat,
    ) by {
        lemma_row_keyed_push(keys, key, table[a]@, kind, a as nat);
    }
}

proof fn lemma_rows_keyed_add(keys: Seq<NameKey>, table: Seq<Vec<usize>>, row: Vec<usize>, kind: nat)
    requires
        rows_keyed(keys, table, kind),
        row_keyed(keys, row@, kind, table.len()),
    ensures
        rows_keyed(keys, table.push(row), kind),
{
    let t2 = table.push(row);
    assert forall|a: int| 0 <= a < t2.len() implies row_keyed(
        keys,
        (#[trigger] t2[a])@,
        kind,
        a as nat,
    ) by {
        if a < table.len() {
            assert(t2[a] == table[a]);
        }
    }
}

/// A variable that is what its key tells stays so when a variable is added.
proof fn lemma_describes_kept(
    vars: Seq<Var>,
    keys: Seq<NameKey>,
    n: usize,
    v: Var,
    key: NameKey,
    k: int,
)
    requires
        keys.len() == vars.len(),
        0 <= k < vars.len(),
        describes(vars, keys, n, k),
    ensures
        describes(vars.push(v), keys.push(key), n, k),
{
    let vars2 = vars.push(v);
    let keys2 = keys.push(key);
    assert(vars2[k] == vars[k]);
    assert(keys2[k] == keys[k]);
    let src = vars[k].src;
    assert forall|product: bool, first: NameKey, second: NameKey|
        combines(keys, src, product, first, second) implies #[trigger] combines(
        keys2,
        src,
        product,
        first,
        second,
    ) by {
        let a = src.operands_spec()[0] as int;
        let b = src.operands_spec()[1] as int;
        assert(keys2[a] == keys[a]);
        assert(keys2[b] == keys[b]);
    }
}

/// Whether every key with a letter of lower `rank` came before, and every key with a letter
/// of that rank came before the numbers `i`, `j`.
pub open spec fn keys_up_to(keys: Seq<NameKey>, rank: nat, i: nat, j: nat) -> bool {
    forall|k: int|
        0 <= k < keys.len() ==> letter_rank((#[trigger] keys[k]).letter) < rank || (letter_rank(
            keys[k].letter,
        ) == rank && (keys[k].i < i || (keys[k].i == i && keys[k].j is Some && keys[k].j->0 < j)))
}

/// The order in which the letters come into use.
pub open spec fn letter_rank(c: char) -> nat {
    if c == 'x' {
        0
    } else if c == 'y' {
        1
    } else if c == 'r' {
        2
    } else if c == 'o' || c == 'p' {
        3
    } else if c == 't' {
        4
    } else if c == 'c' {
        5
    } else {
        6
    }
}

/// Adds a variable to the list and gives its index.
fn new_var(
    vars: &mut Vec<Var>,
    v: Var,
    Ghost(keys): Ghost<Seq<NameKey>>,
    Ghost(key): Ghost<NameKey>,
    Ghost(n): Ghost<usize>,
) -> (idx: usize)
    requires
        building(old(vars)@, keys, n),
        v.name@ == name_text(key),
        key_ok(key),
        forall|k: int| 0 <= k < keys.len() ==> key_before(#[trigger] keys[k], key),
        describes(old(vars)@.push(v), keys.push(key), n, old(vars)@.len() as int),
        forall|k: int|
            0 <= k < v.src.operands_spec().len() ==> (#[trigger] v.src.operands_spec()[k]) < old(
                vars,
            )@.len(),
        match share_tag(v, ShareKind::Input) {
            Some((port, share)) => port < 2 && share < n,
            None => true,
        },
        match share_tag(v, ShareKind::Output) {
            Some((port, share)) => port < 1 && share < n,
            None => true,
        },
    ensures
        final(vars)@ == old(vars)@.push(v),
        idx == old(vars)@.len(),
        building(final(vars)@, keys.push(key), n),
{
    let idx = vars.len();
    vars.push(v);
    proof {
        let keys2 = keys.push(key);
        let s0 = sources(old(vars)@);
        let s1 = sources(vars@);
        assert forall|i: int, k: int|
            0 <= i < s1.len() && 0 <= k < s1[i].operands_spec().len() implies (
        #[trigger] s1[i].operands_spec()[k]) < i by {
            if i < idx {
                assert(s1[i] == s0[i]);
            }
        }
        assert forall|i: int| 0 <= i < vars@.len() implies match #[trigger] share_tag(
            vars@[i],
            ShareKind::Input,
        ) {
            Some((port, share)) => port < 2 && share < n,
            None => true,
        } by {
            if i < idx {
                assert(vars@[i] == old(vars)@[i]);
            }
        }
        assert forall|i: int| 0 <= i < vars@.len() implies match #[trigger] share_tag(
            vars@[i],
            ShareKind::Output,
        ) {
            Some((port, share)) => port < 1 && share < n,
            None => true,
        } by {
            if i < idx {
                assert(vars@[i] == old(vars)@[i]);
            }
        }
        assert forall|k: int| 0 <= k < vars@.len() implies (#[trigger] vars@[k]).name@
            == name_text(keys2[k]) && key_ok(keys2[k]) by {
            if k < idx {
                assert(vars@[k] == old(vars)@[k]);
            }
        }
        assert forall|k: int| 0 <= k < vars@.len() implies #[trigger] describes(
            vars@,
            keys2,
            n,
            k,
        ) by {
            if k < idx {
                lemma_describes_kept(old(vars)@, keys, n, v, key, k);
            }
        }
        assert forall|a: int, b: int| 0 <= a < b < keys2.len() implies #[trigger] key_before(
            keys2[a],
            keys2[b],
        ) by {
            if b < idx {
                assert(key_before(keys[a], keys[b]));
            } else {
                assert(key_before(keys[a], key));
            }
        }
    }
    idx
}

/// A variable that is no share of an input leaves the shares of the inputs where they are.
proof fn lemma_inputs_kept(
    vars: Seq<Var>,
    keys: Seq<NameKey>,
    v: Var,
    key: NameKey,
    n: usize,
    nx: int,
    ny: int,
)
    requires
        inputs_placed(vars, keys, n, nx, ny),
        keys.len() == vars.len(),
        !(v.src is Input),
        nx <= vars.len(),
        ny == 0 || n + ny <= vars.len(),
    ensures
        inputs_placed(vars.push(v), keys.push(key), n, nx, ny),
{
    let w = vars.push(v);
    let q = keys.push(key);
    assert forall|k: int| 0 <= k < nx implies (#[trigger] w[k]).src == VarSrc::Input(
        0,
        k as usize,
    ) && q[k] == k1('x', k as nat) by {
        assert(w[k] == vars[k]);
        assert(q[k] == keys[k]);
    }
    assert forall|k: int| 0 <= k < ny implies (#[trigger] w[n + k]).src == VarSrc::Input(
        1,
        k as usize,
    ) && q[n + k] == k1('y', k as nat) by {
        assert(w[n + k] == vars[n + k]);
        assert(q[n + k] == keys[n + k]);
    }
    assert forall|k: int| 0 <= k < w.len() && (#[trigger] w[k]).src is Input implies k < nx || n
        <= k < n + ny by {
        if k < vars.len() {
            assert(w[k] == vars[k]);
        }
    }
}

/// A variable that is no share of the output leaves the shares of the output where they are.
proof fn lemma_outputs_kept(vars: Seq<Var>, v: Var, outs: Seq<usize>)
    requires
        outputs_placed(vars, outs),
        v.output_port is None,
    ensures
        outputs_placed(vars.push(v), outs),
{
    let w = vars.push(v);
    assert forall|t: int| 0 <= t < outs.len() implies (#[trigger] outs[t]) < w.len()
        && w[outs[t] as int].output_port == Some((0usize, t as usize)) by {
        assert(w[outs[t] as int] == vars[outs[t] as int]);
    }
    assert forall|k: int| 0 <= k < w.len() && (#[trigger] w[k]).output_port is Some implies exists|
        t: int,
    | 0 <= t < outs.len() && #[trigger] outs[t] == k by {
        assert(w[k] == vars[k]);
        let t = choose|t: int| 0 <= t < outs.len() && #[trigger] outs[t] == k;
        assert(outs[t] == k);
    }
}

/// The next share of the output joins those placed.
proof fn lemma_outputs_added(vars: Seq<Var>, v: Var, outs: Seq<usize>)
    requires
        outputs_placed(vars, outs),
        v.output_port == Some((0usize, outs.len() as usize)),
        vars.len() <= usize::MAX,
    ensures
        outputs_placed(vars.push(v), outs.push(vars.len() as usize)),
{
    let w = vars.push(v);
    let o = outs.push(vars.len() as usize);
    assert forall|t: int| 0 <= t < o.len() implies (#[trigger] o[t]) < w.len()
        && w[o[t] as int].output_port == Some((0usize, t as usize)) by {
        if t < outs.len() {
            assert(o[t] == outs[t]);
            assert(w[outs[t] as int] == vars[outs[t] as int]);
        }
    }
    assert forall|k: int| 0 <= k < w.len() && (#[trigger] w[k]).output_port is Some implies exists|
        t: int,
    | 0 <= t < o.len() && #[trigger] o[t] == k by {
        if k < vars.len() {
            assert(w[k] == vars[k]);
            let t = choose|t: int| 0 <= t < outs.len() && #[trigger] outs[t] == k;
            assert(o[t] == k);
        } else {
            assert(o[outs.len() as int] == k);
        }
    }
}

/// The variables as built are a circuit.
proof fn lemma_built_valid(vars: Seq<Var>, keys: Seq<NameKey>, n: usize, outs: Seq<usize>)
    requires
        building(vars, keys, n),
        inputs_placed(vars, keys, n, n as int, n as int),
        2 * n <= vars.len(),
        outputs_placed(vars, outs),
        outs.len() == n,
    ensures
        circuit_valid(vars, n, 2, 1),
{
    assert forall|i: int, j: int| 0 <= i < j < vars.len() implies vars[i].name@ != vars[j].name@ by {
        assert(key_before(keys[i], keys[j]));
        lemma_names_differ(keys[i], keys[j]);
    }
    assert forall|i: int| 0 <= i < vars.len() implies !reserved(vars[i].name@) by {
        lemma_name_not_reserved(keys[i]);
    }
    assert forall|j: int| 0 <= j < vars.len() implies !repeats(vars, ShareKind::Input, j) by {
        if repeats(vars, ShareKind::Input, j) {
            let i = choose|i: int|
                0 <= i < j && share_tag(vars[j], ShareKind::Input) is Some && #[trigger] share_tag(
                    vars[i],
                    ShareKind::Input,
                ) == share_tag(vars[j], ShareKind::Input);
            assert(vars[j].src is Input);
            assert(vars[i].src is Input);
            if j < n {
                assert(vars[j].src == VarSrc::Input(0, j as usize));
            } else {
                assert(vars[n + (j - n)].src == VarSrc::Input(1, (j - n) as usize));
            }
            if i < n {
                assert(vars[i].src == VarSrc::Input(0, i as usize));
            } else {
                assert(vars[n + (i - n)].src == VarSrc::Input(1, (i - n) as usize));
            }
        }
    }
    assert forall|p: usize, s: usize| p < 2 && s < n implies tagged(
        vars,
        ShareKind::Input,
        vars.len() as int,
        p,
        s,
    ) by {
        if p == 0 {
            assert(vars[s as int].src == VarSrc::Input(0, s));
            assert(share_tag(vars[s as int], ShareKind::Input) == Some((p, s)));
        } else {
            assert(vars[n + s].src == VarSrc::Input(1, s));
            assert(share_tag(vars[n + s], ShareKind::Input) == Some((p, s)));
        }
    }
    assert forall|j: int| 0 <= j < vars.len() implies !repeats(vars, ShareKind::Output, j) by {
        if repeats(vars, ShareKind::Output, j) {
            let i = choose|i: int|
                0 <= i < j && share_tag(vars[j], ShareKind::Output) is Some && #[trigger] share_tag(
                    vars[i],
                    ShareKind::Output,
                ) == share_tag(vars[j], ShareKind::Output);
            assert(vars[j].output_port is Some);
            assert(vars[i].output_port is Some);
            let tj = choose|t: int| 0 <= t < outs.len() && #[trigger] outs[t] == j;
            let ti = choose|t: int| 0 <= t < outs.len() && #[trigger] outs[t] == i;
            assert(vars[outs[tj] as int].output_port == Some((0usize, tj as usize)));
            assert(vars[outs[ti] as int].output_port == Some((0usize, ti as usize)));
        }
    }
    assert forall|p: usize, s: usize| p < 1 && s < n implies tagged(
        vars,
        ShareKind::Output,
        vars.len() as int,
        p,
        s,
    ) by {
        let k = outs[s as int];
        assert(vars[k as int].output_port == Some((0usize, s)));
        assert(share_tag(vars[k as int], ShareKind::Output) == Some((p, s)));
    }
}

/// Whether there is a variable for the key `c_a_b` of each sum before `c_i_j`.
pub open spec fn sums_done(keys: Seq<NameKey>, n: usize, i: nat, j: nat) -> bool {
    forall|a: nat, b: nat|
        1 <= b < n && (a < i || (a == i && b < j)) ==> #[trigger] keyed(keys, k2('c', a, b))
}

proof fn lemma_sums_done_push(keys: Seq<NameKey>, key: NameKey, n: usize, i: nat, j: nat)
    requires
        sums_done(keys, n, i, j),
    ensures
        sums_done(keys.push(key), n, i, j),
        key == k2('c', i, j) && 1 <= j < n ==> sums_done(keys.push(key), n, i, j + 1),
{
    let q = keys.push(key);
    assert forall|a: nat, b: nat|
        1 <= b < n && (a < i || (a == i && b < j)) implies #[trigger] keyed(q, k2('c', a, b)) by {
        assert(keyed(keys, k2('c', a, b)));
        let k = choose|k: int| has_key(keys, k, k2('c', a, b));
        assert(has_key(q, k, k2('c', a, b)));
    }
    if key == k2('c', i, j) && 1 <= j < n {
        assert forall|a: nat, b: nat|
            1 <= b < n && (a < i || (a == i && b < j + 1)) implies #[trigger] keyed(
            q,
            k2('c', a, b),
        ) by {
            if a == i && b == j {
                assert(has_key(q, keys.len() as int, k2('c', a, b)));
            } else {
                assert(keyed(keys, k2('c', a, b)));
                let k = choose|k: int| has_key(keys, k, k2('c', a, b));
                assert(has_key(q, k, k2('c', a, b)));
            }
        }
    }
}

/// The ISW multiplication of two sharings of `n` shares: the products of the shares of one
/// input with those of the other, the products across shares refreshed with a random bit for
/// each pair, and summed for each share of the output.
pub fn build_isw(n: usize) -> (c: SlSharedCircuit)
    ensures
        c.wf(),
        circuit_valid(c.vars@, n, 2, 1),
        exists|keys: Seq<NameKey>| #[trigger] is_isw(c.vars@, keys, n),
        c.n_shares == n,
        c.n_input_ports == 2,
        c.n_output_ports == 1,
{
    let mut vars: Vec<Var> = Vec::new();
    let ghost mut keys: Seq<NameKey> = Seq::empty();
    let ghost mut outs: Seq<usize> = Seq::empty();
    let mut input_x: Vec<usize> = Vec::new();
    let mut i: usize = 0;
    while i < n
        invariant
            i <= n,
            vars@.len() == i,
            input_x@.len() == i,
            forall|k: int| 0 <= k < i ==> input_x@[k] == k,
            building(vars@, keys, n),
            inputs_placed(vars@, keys, n, i as int, 0),
            outputs_placed(vars@, outs),
            outs.len() == 0,
            keys_up_to(keys, 0, i as nat, 0),
        decreases n - i,
    {
        let ghost key = k1('x', i as nat);
        let v = Var { src: VarSrc::Input(0, i), output_port: None, name: indexed_name('x', i) };
        let ghost before = vars@;
        let ghost keys0 = keys;
        proof {
            assert(describes(before.push(v), keys.push(key), n, before.len() as int));
        }
        let idx = new_var(&mut vars, v, Ghost(keys), Ghost(key), Ghost(n));
        input_x.push(idx);
        proof {
            keys = keys.push(key);
            lemma_outputs_kept(before, v, outs);
            assert forall|k: int| 0 <= k < i + 1 implies (#[trigger] vars@[k]).src
                == VarSrc::Input(0, k as usize) && keys[k] == k1('x', k as nat) by {
                if k < i {
                    assert(vars@[k] == before[k]);
                    assert(keys[k] == keys0[k]);
                }
            }
            assert forall|k: int| 0 <= k < vars@.len() && (#[trigger] vars@[k]).src is Input implies k
                < i + 1 || n <= k < n + 0 by {}
        }
        i = i + 1;
    }
    let mut input_y: Vec<usize> = Vec::new();
    let mut i: usize = 0;
    while i < n
        invariant
            i <= n,
            vars@.len() == n + i,
            input_x@.len() == n,
            forall|k: int| 0 <= k < n ==> input_x@[k] == k,
            input_y@.len() == i,
            forall|k: int| 0 <= k < i ==> input_y@[k] == n + k,
            building(vars@, keys, n),
            inputs_placed(vars@, keys, n, n as int, i as int),
            outputs_placed(vars@, outs),
            outs.len() == 0,
            keys_up_to(keys, 1, i as nat, 0),
        decreases n - i,
    {
        let ghost key = k1('y', i as nat);
        let v = Var { src: VarSrc::Input(1, i), output_port: None, name: indexed_name('y', i) };
        let ghost before = vars@;
        let ghost keys0 = keys;
        proof {
            assert(describes(before.push(v), keys.push(key), n, before.len() as int));
        }
        let idx = new_var(&mut vars, v, Ghost(keys), Ghost(key), Ghost(n));
        input_y.push(idx);
        proof {
            keys = keys.push(key);
            lemma_outputs_kept(before, v, outs);
            assert forall|k: int| 0 <= k < n implies (#[trigger] vars@[k]).src == VarSrc::Input(
                0,
                k as usize,
            ) && keys[k] == k1('x', k as nat) by {
                assert(vars@[k] == before[k]);
                assert(keys[k] == keys0[k]);
            }
            assert forall|k: int| 0 <= k < i + 1 implies (#[trigger] vars@[n + k]).src
                == VarSrc::Input(1, k as usize) && keys[n + k] == k1('y', k as nat) by {
                if k < i {
                    assert(vars@[n + k] == before[n + k]);
                    assert(keys[n + k] == keys0[n + k]);
                }
            }
            assert forall|k: int| 0 <= k < vars@.len() && (#[trigger] vars@[k]).src is Input implies k
                < n || n <= k < n + (i + 1) by {}
        }
        i = i + 1;
    }
    let mut randoms: Vec<Vec<usize>> = Vec::new();
    let mut i: usize = 0;
    while i < n
        invariant
            i <= n,
            2 * n <= vars@.len(),
            input_x@.len() == n,
            forall|k: int| 0 <= k < n ==> input_x@[k] == k,
            input_y@.len() == n,
            forall|k: int| 0 <= k < n ==> input_y@[k] == n + k,
            randoms@.len() == i,
            forall|k: int| 0 <= k < i ==> (#[trigger] randoms@[k])@.len() == n,
            rows_keyed(keys, randoms@, 0),
            building(vars@, keys, n),
            inputs_placed(vars@, keys, n, n as int, n as int),
            outputs_placed(vars@, outs),
            outs.len() == 0,
            keys_up_to(keys, 2, i as nat, 0),
        decreases n - i,
    {
        let mut row: Vec<usize> = Vec::new();
        let mut j: usize = 0;
        while j < n
            invariant
                i < n,
                j <= n,
                2 * n <= vars@.len(),
                row@.len() == j,
                row_keyed(keys, row@, 0, i as nat),
                rows_keyed(keys, randoms@, 0),
                building(vars@, keys, n),
                inputs_placed(vars@, keys, n, n as int, n as int),
                outputs_placed(vars@, outs),
                outs.len() == 0,
                keys_up_to(keys, 2, i as nat, j as nat),
            decreases n - j,
        {
            let ghost key = k2('r', i as nat, j as nat);
            let v = Var { src: VarSrc::Random, output_port: None, name: indexed_name2('r', i, j) };
            let ghost before = vars@;
            let ghost row0 = row@;
            proof {
                assert(describes(before.push(v), keys.push(key), n, before.len() as int));
            }
            let idx = new_var(&mut vars, v, Ghost(keys), Ghost(key), Ghost(n));
            row.push(idx);
            proof {
                lemma_inputs_kept(before, keys, v, key, n, n as int, n as int);
                lemma_rows_keyed_push(keys, key, randoms@, 0);
                lemma_row_keyed_push(keys, key, row0, 0, i as nat);
                keys = keys.push(key);
                lemma_outputs_kept(before, v, outs);
                assert forall|b: int| 0 <= b < row@.len() implies has_key(
                    keys,
                    (#[trigger] row@[b]) as int,
                    key_at(0, i as nat, b as nat),
                ) by {
                    if b < j {
                        assert(row@[b] == row0[b]);
                    }
                }
            }
            j = j + 1;
        }
        proof {
            lemma_rows_keyed_add(keys, randoms@, row, 0);
            assert(keys_up_to(keys, 2, (i + 1) as nat, 0));
        }
        randoms.push(row);
        i = i + 1;
    }
    let ghost mut products_view: Seq<Vec<usize>> = Seq::empty();
    let ghost mut refs_view: Seq<Vec<usize>> = Seq::empty();
    if n == 1 {
        let ghost key = k1('o', 0);
        let v = Var {
            src: VarSrc::Product([input_x[0], input_y[0]]),
            output_port: Some((0, 0)),
            name: indexed_name('o', 0),
        };
        let ghost before = vars@;
        proof {
            assert(v.src.operands_spec()[0] == input_x@[0]);
            assert(v.src.operands_spec()[1] == input_y@[0]);
            let q = keys.push(key);
            assert(before[0].src == VarSrc::Input(0, 0));
            assert(before[n + 0].src == VarSrc::Input(1, 0));
            assert(has_key(q, 0, k1('x', 0)) && has_key(q, 1, k1('y', 0)));
            assert(describes(before.push(v), q, n, before.len() as int));
        }
        new_var(&mut vars, v, Ghost(keys), Ghost(key), Ghost(n));
        proof {
            lemma_inputs_kept(before, keys, v, key, n, n as int, n as int);
            lemma_rows_keyed_push(keys, key, randoms@, 0);
            keys = keys.push(key);
            lemma_outputs_added(before, v, outs);
            outs = outs.push(before.len() as usize);
            assert(has_key(keys, before.len() as int, k1('o', 0)));
        }
    } else {
        let mut products: Vec<Vec<usize>> = Vec::new();
        let mut i: usize = 0;
        while i < n
            invariant
                i <= n,
                n != 1,
                2 * n <= vars@.len(),
                input_x@.len() == n,
                forall|k: int| 0 <= k < n ==> input_x@[k] == k,
                input_y@.len() == n,
                forall|k: int| 0 <= k < n ==> input_y@[k] == n + k,
                randoms@.len() == n,
                forall|k: int| 0 <= k < n ==> (#[trigger] randoms@[k])@.len() == n,
                rows_keyed(keys, randoms@, 0),
                products@.len() == i,
                forall|k: int| 0 <= k < i ==> (#[trigger] products@[k])@.len() == n,
                rows_keyed(keys, products@, 1),
                building(vars@, keys, n),
                inputs_placed(vars@, keys, n, n as int, n as int),
                outputs_placed(vars@, outs),
                outs.len() == 0,
                keys_up_to(keys, 3, i as nat, 0),
                forall|k: int| 0 <= k < keys.len() ==> (#[trigger] keys[k]).letter != 'o',
            decreases n - i,
        {
            let mut row: Vec<usize> = Vec::new();
            let mut j: usize = 0;
            while j < n
                invariant
                    i < n,
                    j <= n,
                    n != 1,
                    2 * n <= vars@.len(),
                    input_x@.len() == n,
                    forall|k: int| 0 <= k < n ==> input_x@[k] == k,
                    input_y@.len() == n,
                    forall|k: int| 0 <= k < n ==> input_y@[k] == n + k,
                    row@.len() == j,
                    row_keyed(keys, row@, 1, i as nat),
                    rows_keyed(keys, randoms@, 0),
                    rows_keyed(keys, products@, 1),
                    building(vars@, keys, n),
                    inputs_placed(vars@, keys, n, n as int, n as int),
                    outputs_placed(vars@, outs),
                    outs.len() == 0,
                    keys_up_to(keys, 3, i as nat, j as nat),
                    forall|k: int| 0 <= k < keys.len() ==> (#[trigger] keys[k]).letter != 'o',
                decreases n - j,
            {
                let ghost key = k2('p', i as nat, j as nat);
                let v = Var {
                    src: VarSrc::Product([input_x[i], input_y[j]]),
                    output_port: None,
                    name: indexed_name2('p', i, j),
                };
                let ghost before = vars@;
                let ghost row0 = row@;
                proof {
                    assert(v.src.operands_spec()[0] == input_x@[i as int]);
                    assert(v.src.operands_spec()[1] == input_y@[j as int]);
                    let q = keys.push(key);
                    assert(before[i as int].src == VarSrc::Input(0, i));
                    assert(before[n + j].src == VarSrc::Input(1, j));
                    assert(has_key(q, i as int, k1('x', i as nat)) && has_key(
                        q,
                        n + j,
                        k1('y', j as nat),
                    ));
                    assert(describes(before.push(v), q, n, before.len() as int));
                }
                let idx = new_var(&mut vars, v, Ghost(keys), Ghost(key), Ghost(n));
                row.push(idx);
                proof {
                    lemma_inputs_kept(before, keys, v, key, n, n as int, n as int);
                    lemma_rows_keyed_push(keys, key, randoms@, 0);
                    lemma_rows_keyed_push(keys, key, products@, 1);
                    lemma_row_keyed_push(keys, key, row0, 1, i as nat);
                    keys = keys.push(key);
                    lemma_outputs_kept(before, v, outs);
                    assert forall|b: int| 0 <= b < row@.len() implies has_key(
                        keys,
                        (#[trigger] row@[b]) as int,
                        key_at(1, i as nat, b as nat),
                    ) by {
                        if b < j {
                            assert(row@[b] == row0[b]);
                        }
                    }
                }
                j = j + 1;
            }
            proof {
                lemma_rows_keyed_add(keys, products@, row, 1);
                assert(keys_up_to(keys, 3, (i + 1) as nat, 0));
            }
            products.push(row);
            i = i + 1;
        }
        let mut ref_prod: Vec<Vec<usize>> = Vec::new();
        let mut i: usize = 0;
        while i < n
            invariant
                i <= n,
                n != 1,
                2 * n <= vars@.len(),
                randoms@.len() == n,
                forall|k: int| 0 <= k < n ==> (#[trigger] randoms@[k])@.len() == n,
                rows_keyed(keys, randoms@, 0),
                products@.len() == n,
                forall|k: int| 0 <= k < n ==> (#[trigger] products@[k])@.len() == n,
                rows_keyed(keys, products@, 1),
                ref_prod@.len() == i,
                forall|k: int| 0 <= k < i ==> (#[trigger] ref_prod@[k])@.len() == n,
                rows_keyed(keys, ref_prod@, 2),
                building(vars@, keys, n),
                inputs_placed(vars@, keys, n, n as int, n as int),
                outputs_placed(vars@, outs),
                outs.len() == 0,
                keys_up_to(keys, 4, i as nat, 0),
            decreases n - i,
        {
            let mut row: Vec<usize> = Vec::new();
            let mut j: usize = 0;
            while j < n
                invariant
                    i < n,
                    j <= n,
                    n != 1,
                    2 * n <= vars@.len(),
                    randoms@.len() == n,
                    forall|k: int| 0 <= k < n ==> (#[trigger] randoms@[k])@.len() == n,
                    rows_keyed(keys, randoms@, 0),
                    products@.len() == n,
                    forall|k: int| 0 <= k < n ==> (#[trigger] products@[k])@.len() == n,
                    rows_keyed(keys, products@, 1),
                    rows_keyed(keys, ref_prod@, 2),
                    row@.len() == j,
                    row_keyed(keys, row@, 2, i as nat),
                    building(vars@, keys, n),
                    inputs_placed(vars@, keys, n, n as int, n as int),
                    outputs_placed(vars@, outs),
                    outs.len() == 0,
                    keys_up_to(keys, 4, i as nat, j as nat),
                decreases n - j,
            {
                let ghost row0 = row@;
                proof {
                    assert(row_keyed(keys, products@[i as int]@, 1, i as nat));
                    assert(has_key(
                        keys,
                        products@[i as int]@[j as int] as int,
                        key_at(1, i as nat, j as nat),
                    ));
                }
                if i == j {
                    row.push(products[i][j]);
                    proof {
                        assert forall|b: int| 0 <= b < row@.len() implies has_key(
                            keys,
                            (#[trigger] row@[b]) as int,
                            key_at(2, i as nat, b as nat),
                        ) by {
                            if b < j {
                                assert(row@[b] == row0[b]);
                            }
                        }
                    }
                } else {
                    let mask = if i < j {
                        randoms[j][i]
                    } else {
                        randoms[i][j]
                    };
                    let ghost key = k2('t', i as nat, j as nat);
                    let v = Var {
                        src: VarSrc::Sum([products[i][j], mask]),
                        output_port: None,
                        name: indexed_name2('t', i, j),
                    };
                    let ghost before = vars@;
                    proof {
                        assert(row_keyed(keys, randoms@[j as int]@, 0, j as nat));
                        assert(row_keyed(keys, randoms@[i as int]@, 0, i as nat));
                        assert(has_key(
                            keys,
                            randoms@[j as int]@[i as int] as int,
                            key_at(0, j as nat, i as nat),
                        ));
                        assert(has_key(
                            keys,
                            randoms@[i as int]@[j as int] as int,
                            key_at(0, i as nat, j as nat),
                        ));
                        assert(v.src.operands_spec()[0] == products@[i as int]@[j as int]);
                        assert(v.src.operands_spec()[1] == mask);
                        let q = keys.push(key);
                        let r = if i < j {
                            k2('r', j as nat, i as nat)
                        } else {
                            k2('r', i as nat, j as nat)
                        };
                        assert(has_key(
                            q,
                            products@[i as int]@[j as int] as int,
                            k2('p', i as nat, j as nat),
                        ) && has_key(q, mask as int, r));
                        assert(describes(before.push(v), q, n, before.len() as int));
                    }
                    let idx = new_var(&mut vars, v, Ghost(keys), Ghost(key), Ghost(n));
                    row.push(idx);
                    proof {
                        lemma_inputs_kept(before, keys, v, key, n, n as int, n as int);
                        lemma_rows_keyed_push(keys, key, randoms@, 0);
                        lemma_rows_keyed_push(keys, key, products@, 1);
                        lemma_rows_keyed_push(keys, key, ref_prod@, 2);
                        lemma_row_keyed_push(keys, key, row0, 2, i as nat);
                        keys = keys.push(key);
                        lemma_outputs_kept(before, v, outs);
                        assert forall|b: int| 0 <= b < row@.len() implies has_key(
                            keys,
                            (#[trigger] row@[b]) as int,
                            key_at(2, i as nat, b as nat),
                        ) by {
                            if b < j {
                                assert(row@[b] == row0[b]);
                            }
                        }
                    }
                }
                j = j + 1;
            }
            proof {
                lemma_rows_keyed_add(keys, ref_prod@, row, 2);
                assert(keys_up_to(keys, 4, (i + 1) as nat, 0));
            }
            ref_prod.push(row);
            i = i + 1;
        }
        let mut i: usize = 0;
        while i < n
            invariant
                i <= n,
                n != 1,
                2 * n <= vars@.len(),
                randoms@.len() == n,
                forall|k: int| 0 <= k < n ==> (#[trigger] randoms@[k])@.len() == n,
                rows_keyed(keys, randoms@, 0),
                products@.len() == n,
                forall|k: int| 0 <= k < n ==> (#[trigger] products@[k])@.len() == n,
                rows_keyed(keys, products@, 1),
                ref_prod@.len() == n,
                forall|k: int| 0 <= k < n ==> (#[trigger] ref_prod@[k])@.len() == n,
                rows_keyed(keys, ref_prod@, 2),
                sums_done(keys, n, i as nat, 0),
                building(vars@, keys, n),
                inputs_placed(vars@, keys, n, n as int, n as int),
                outputs_placed(vars@, outs),
                outs.len() == i,
                keys_up_to(keys, 5, i as nat, 0),
            decreases n - i,
        {
            proof {
                assert(row_keyed(keys, ref_prod@[i as int]@, 2, i as nat));
                assert(has_key(keys, ref_prod@[i as int]@[0] as int, key_at(2, i as nat, 0)));
            }
            let mut acc = ref_prod[i][0];
            let mut j: usize = 1;
            while j < n
                invariant
                    i < n,
                    1 <= j <= n,
                    n != 1,
                    2 * n <= vars@.len(),
                    has_key(keys, acc as int, acc_key(i as nat, (j - 1) as nat)),
                    randoms@.len() == n,
                    forall|k: int| 0 <= k < n ==> (#[trigger] randoms@[k])@.len() == n,
                    rows_keyed(keys, randoms@, 0),
                    products@.len() == n,
                    forall|k: int| 0 <= k < n ==> (#[trigger] products@[k])@.len() == n,
                    rows_keyed(keys, products@, 1),
                    ref_prod@.len() == n,
                    forall|k: int| 0 <= k < n ==> (#[trigger] ref_prod@[k])@.len() == n,
                    rows_keyed(keys, ref_prod@, 2),
                    sums_done(keys, n, i as nat, j as nat),
                    building(vars@, keys, n),
                    inputs_placed(vars@, keys, n, n as int, n as int),
                    outputs_placed(vars@, outs),
                    outs.len() == if j == n {
                        i + 1
                    } else {
                        i as int
                    },
                    keys_up_to(keys, 5, i as nat, j as nat),
                decreases n - j,
            {
                let ghost key = k2('c', i as nat, j as nat);
                let v = Var {
                    src: VarSrc::Sum([acc, ref_prod[i][j]]),
                    output_port: if j == n - 1 {
                        Some((0, i))
                    } else {
                        None
                    },
                    name: indexed_name2('c', i, j),
                };
                let ghost before = vars@;
                proof {
                    assert(row_keyed(keys, ref_prod@[i as int]@, 2, i as nat));
                    assert(has_key(
                        keys,
                        ref_prod@[i as int]@[j as int] as int,
                        key_at(2, i as nat, j as nat),
                    ));
                    assert(v.src.operands_spec()[0] == acc);
                    assert(v.src.operands_spec()[1] == ref_prod@[i as int]@[j as int]);
                    let q = keys.push(key);
                    assert(has_key(q, acc as int, acc_key(i as nat, (j - 1) as nat)) && has_key(
                        q,
                        ref_prod@[i as int]@[j as int] as int,
                        ref_key(i as nat, j as nat),
                    ));
                    assert(describes(before.push(v), q, n, before.len() as int));
                }
                acc = new_var(&mut vars, v, Ghost(keys), Ghost(key), Ghost(n));
                proof {
                    lemma_inputs_kept(before, keys, v, key, n, n as int, n as int);
                    lemma_rows_keyed_push(keys, key, randoms@, 0);
                    lemma_rows_keyed_push(keys, key, products@, 1);
                    lemma_rows_keyed_push(keys, key, ref_prod@, 2);
                    lemma_sums_done_push(keys, key, n, i as nat, j as nat);
                    keys = keys.push(key);
                    if j == n - 1 {
                        lemma_outputs_added(before, v, outs);
                        outs = outs.push(before.len() as usize);
                    } else {
                        lemma_outputs_kept(before, v, outs);
                    }
                }
                j = j + 1;
            }
            proof {
                assert(keys_up_to(keys, 5, (i + 1) as nat, 0));
                assert(sums_done(keys, n, (i + 1) as nat, 0));
            }
            i = i + 1;
        }
        proof {
            products_view = products@;
            refs_view = ref_prod@;
        }
    }
    proof {
        lemma_built_valid(vars@, keys, n, outs);
        assert(complete(keys, n)) by {
            assert forall|i: nat| i < n implies #[trigger] keyed(keys, k1('x', i)) by {
                assert(vars@[i as int].src == VarSrc::Input(0, i as usize));
                assert(has_key(keys, i as int, k1('x', i)));
            }
            assert forall|i: nat| i < n implies #[trigger] keyed(keys, k1('y', i)) by {
                assert(vars@[n + i].src == VarSrc::Input(1, i as usize));
                assert(has_key(keys, (n + i) as int, k1('y', i)));
            }
            assert forall|i: nat, j: nat| i < n && j < n implies #[trigger] keyed(
                keys,
                k2('r', i, j),
            ) by {
                assert(row_keyed(keys, randoms@[i as int]@, 0, i));
                assert(has_key(keys, randoms@[i as int]@[j as int] as int, key_at(0, i, j)));
            }
            if n != 1 {
                assert forall|i: nat, j: nat| i < n && j < n implies #[trigger] keyed(
                    keys,
                    k2('p', i, j),
                ) by {
                    assert(row_keyed(keys, products_view[i as int]@, 1, i));
                    assert(has_key(
                        keys,
                        products_view[i as int]@[j as int] as int,
                        key_at(1, i, j),
                    ));
                }
                assert forall|i: nat, j: nat| i < n && j < n && i != j implies #[trigger] keyed(
                    keys,
                    k2('t', i, j),
                ) by {
                    assert(row_keyed(keys, refs_view[i as int]@, 2, i));
                    assert(has_key(keys, refs_view[i as int]@[j as int] as int, key_at(2, i, j)));
                }
                assert forall|i: nat, j: nat| i < n && 1 <= j < n implies #[trigger] keyed(
                    keys,
                    k2('c', i, j),
                ) by {}
            }
        }
        assert(is_isw(vars@, keys, n));
    }
    match new_sl_sc(vars, n, 2, 1) {
        Ok(c) => c,
        Err(_) => {
            proof {
                assert(false);
            }
            SlSharedCircuit::new(Vec::new(), n, 2, 1)
        },
    }
}

} // verus!
