//! Circuits from lists of variables, with the checks that make a list a circuit.
use super::sl_sc::{sources, topological, SlSharedCircuit, Var, VarSrc};
use super::utils::starts_with;
use vstd::prelude::*;

verus! {

/// The sharings of a circuit that are checked for completeness.
#[derive(Debug, Clone, Copy, PartialEq, Eq, Structural)]
pub enum ShareKind {
    /// The shares of the inputs.
    Input,
    /// The shares of the outputs.
    Output,
}

/// Why a list of variables is no circuit.
#[derive(Debug, Clone, PartialEq, Eq)]
pub enum CircuitError {
    /// Two variables have one name.
    NonUniqueNames,
    /// The name of a variable begins with `input` or `output`.
    ReservedName(String),
    /// Variable `var` has the operand `op`, which does not come before it.
    InvalidOpSorting { var: usize, op: usize },
    /// Two variables are the share `share` of the port `port`.
    DuplicateShare { kind: ShareKind, port: usize, share: usize },
    /// No variable is one of these shares, each given as port and share.
    MissingShares { kind: ShareKind, shares: Vec<(usize, usize)> },
}

/// Whether no two variables have one name.
pub open spec fn names_unique(vars: Seq<Var>) -> bool {
    forall|i: int, j: int| 0 <= i < j < vars.len() ==> vars[i].name@ != vars[j].name@
}

/// Whether a name begins with `input` or `output`.
pub open spec fn reserved(name: Seq<char>) -> bool {
    "input"@.is_prefix_of(name) || "output"@.is_prefix_of(name)
}

/// Whether variable `k` is the first with a reserved name.
pub open spec fn first_reserved(vars: Seq<Var>, k: int) -> bool {
    &&& 0 <= k < vars.len()
    &&& reserved(vars[k].name@)
    &&& forall|i: int| 0 <= i < k ==> !reserved(vars[i].name@)
}

/// Whether no variable has a reserved name.
pub open spec fn none_reserved(vars: Seq<Var>) -> bool {
    forall|i: int| 0 <= i < vars.len() ==> !reserved(vars[i].name@)
}

/// Whether `op` is the first operand out of order in the list: the operands of the variables
/// before `var` come before them, and `op` is the first operand of `var` that does not.
pub open spec fn first_unsorted(srcs: Seq<VarSrc>, var: int, op: usize) -> bool {
    &&& 0 <= var < srcs.len()
    &&& topological(srcs.subrange(0, var))
    &&& exists|k: int|
        0 <= k < srcs[var].operands_spec().len() && #[trigger] srcs[var].operands_spec()[k] == op
            && op >= var && forall|l: int| 0 <= l < k ==> srcs[var].operands_spec()[l] < var
}

/// The share that a variable is, of the inputs or of the outputs: port and place.
pub open spec fn share_tag(v: Var, kind: ShareKind) -> Option<(usize, usize)> {
    match kind {
        ShareKind::Input => match v.src {
            VarSrc::Input(port, share) => Some((port, share)),
            _ => None,
        },
        ShareKind::Output => v.output_port,
    }
}

/// Whether each share that a variable is has its port below `n_ports` and its place below
/// `n_shares`.
pub open spec fn tags_in_range(vars: Seq<Var>, n_shares: usize, n_ports: usize, kind: ShareKind) -> bool {
    forall|i: int|
        0 <= i < vars.len() ==> match #[trigger] share_tag(vars[i], kind) {
            Some((port, share)) => port < n_ports && share < n_shares,
            None => true,
        }
}

/// Whether variable `j` is the share that a variable before it is.
pub open spec fn repeats(vars: Seq<Var>, kind: ShareKind, j: int) -> bool {
    exists|i: int|
        0 <= i < j && share_tag(vars[j], kind) is Some && #[trigger] share_tag(vars[i], kind)
            == share_tag(vars[j], kind)
}

/// Whether a variable among the first `n` is the share `(port, share)`.
pub open spec fn tagged(vars: Seq<Var>, kind: ShareKind, n: int, port: usize, share: usize) -> bool {
    exists|i: int| 0 <= i < n && #[trigger] share_tag(vars[i], kind) == Some((port, share))
}

/// Whether the share `a` comes before the share `b`: by port, then by place.
pub open spec fn share_lt(a: (usize, usize), b: (usize, usize)) -> bool {
    a.0 < b.0 || (a.0 == b.0 && a.1 < b.1)
}

/// Whether `m` is a share before `limit` that no variable is.
pub open spec fn is_missing(
    vars: Seq<Var>,
    n_shares: usize,
    n_ports: usize,
    kind: ShareKind,
    m: (usize, usize),
    limit: (usize, usize),
) -> bool {
    m.0 < n_ports && m.1 < n_shares && share_lt(m, limit) && !tagged(
        vars,
        kind,
        vars.len() as int,
        m.0,
        m.1,
    )
}

/// Whether `missing` lists the shares before `limit` that no variable is, in order.
pub open spec fn is_missing_list(
    vars: Seq<Var>,
    n_shares: usize,
    n_ports: usize,
    kind: ShareKind,
    missing: Seq<(usize, usize)>,
    limit: (usize, usize),
) -> bool {
    &&& forall|i: int, j: int| 0 <= i < j < missing.len() ==> share_lt(missing[i], missing[j])
    &&& forall|m: (usize, usize)| #[trigger]
        missing.contains(m) <==> is_missing(vars, n_shares, n_ports, kind, m, limit)
}

/// Whether exactly one variable is each share of each port.
pub open spec fn sharings_complete(vars: Seq<Var>, n_shares: usize, n_ports: usize, kind: ShareKind) -> bool {
    &&& forall|j: int| 0 <= j < vars.len() ==> !repeats(vars, kind, j)
    &&& forall|p: usize, s: usize|
        p < n_ports && s < n_shares ==> tagged(vars, kind, vars.len() as int, p, s)
}

/// What the check of the sharings gives: nothing where they are complete; else the first share
/// that a second variable is; else the shares that no variable is, in order.
pub open spec fn sharings_result(
    vars: Seq<Var>,
    n_shares: usize,
    n_ports: usize,
    kind: ShareKind,
    r: Result<(), CircuitError>,
) -> bool {
    match r {
        Ok(_) => sharings_complete(vars, n_shares, n_ports, kind),
        Err(CircuitError::DuplicateShare { kind: k, port, share }) => {
            &&& k == kind
            &&& exists|j: int|
                0 <= j < vars.len() && #[trigger] repeats(vars, kind, j) && share_tag(
                    vars[j],
                    kind,
                ) == Some((port, share)) && forall|l: int| 0 <= l < j ==> !repeats(vars, kind, l)
        },
        Err(CircuitError::MissingShares { kind: k, shares }) => {
            &&& k == kind
            &&& shares@.len() > 0
            &&& forall|j: int| 0 <= j < vars.len() ==> !repeats(vars, kind, j)
            &&& is_missing_list(vars, n_shares, n_ports, kind, shares@, (n_ports, 0))
        },
        Err(_) => false,
    }
}

/// Whether the list of variables is a circuit: the names differ and none is reserved, each
/// operand comes before the variable that uses it, and exactly one variable is each share of
/// each input and of each output.
pub open spec fn circuit_valid(
    vars: Seq<Var>,
    n_shares: usize,
    n_input_ports: usize,
    n_output_ports: usize,
) -> bool {
    &&& names_unique(vars)
    &&& none_reserved(vars)
    &&& topological(sources(vars))
    &&& sharings_complete(vars, n_shares, n_input_ports, ShareKind::Input)
    &&& sharings_complete(vars, n_shares, n_output_ports, ShareKind::Output)
}

/// Whether no two variables have one name.
pub fn is_unique(vars: &[Var]) -> (b: bool)
    ensures
        b == names_unique(vars@),
{
    let n = vars.len();
    let mut j: usize = 0;
    while j < n
        invariant
            j <= n,
            n == vars@.len(),
            forall|a: int, b: int| 0 <= a < b < j ==> vars@[a].name@ != vars@[b].name@,
        decreases n - j,
    {
        let mut i: usize = 0;
        while i < j
            invariant
                i <= j < n,
                n == vars@.len(),
                forall|a: int| 0 <= a < i ==> vars@[a].name@ != vars@[j as int].name@,
            decreases j - i,
        {
            if vars[i].name == vars[j].name {
                return false;
            }
            i = i + 1;
        }
        j = j + 1;
    }
    true
}

/// Checks that no name begins with `input` or `output`; gives the first that does.
pub fn check_no_io(vars: &[Var]) -> (r: Result<(), String>)
    ensures
        match r {
            Ok(_) => none_reserved(vars@),
            Err(name) => exists|k: int| #[trigger] first_reserved(vars@, k) && name@ == vars@[k].name@,
        },
{
    let n = vars.len();
    let mut i: usize = 0;
    while i < n
        invariant
            i <= n,
            n == vars@.len(),
            forall|k: int| 0 <= k < i ==> !reserved(vars@[k].name@),
        decreases n - i,
    {
        let name = vars[i].name.as_str();
        if starts_with(name, "input") || starts_with(name, "output") {
            assert(first_reserved(vars@, i as int));
            return Err(vars[i].name.clone());
        }
        i = i + 1;
    }
    Ok(())
}

/// The share that a variable is, of the inputs or of the outputs.
pub fn extract_port_share(v: &Var, kind: ShareKind) -> (tag: Option<(usize, usize)>)
    ensures
        tag == share_tag(*v, kind),
{
    match kind {
        ShareKind::Input => match v.src {
            VarSrc::Input(port, share) => Some((port, share)),
            _ => None,
        },
        ShareKind::Output => v.output_port,
    }
}

/// A table of `n_ports` rows of `n_shares` flags, none set.
fn new_table(n_shares: usize, n_ports: usize) -> (t: Vec<Vec<bool>>)
    ensures
        t@.len() == n_ports,
        forall|p: int| 0 <= p < n_ports ==> (#[trigger] t@[p])@.len() == n_shares,
        forall|p: int, s: int| 0 <= p < n_ports && 0 <= s < n_shares ==> !t@[p]@[s],
{
    let mut t: Vec<Vec<bool>> = Vec::new();
    let mut p: usize = 0;
    while p < n_ports
        invariant
            p <= n_ports,
            t@.len() == p,
            forall|q: int| 0 <= q < p ==> (#[trigger] t@[q])@.len() == n_shares,
            forall|q: int, s: int| 0 <= q < p && 0 <= s < n_shares ==> !t@[q]@[s],
        decreases n_ports - p,
    {
        let mut row: Vec<bool> = Vec::new();
        let mut s: usize = 0;
        while s < n_shares
            invariant
                s <= n_shares,
                row@.len() == s,
                forall|k: int| 0 <= k < s ==> !row@[k],
            decreases n_shares - s,
        {
            row.push(false);
            s = s + 1;
        }
        t.push(row);
        p = p + 1;
    }
    t
}

/// Checks that exactly one variable is each share of each input, or of each output. Gives the
/// first share that a second variable is; else the shares that no variable is, in order.
pub fn check_completeness_sharings(
    vars: &[Var],
    n_shares: usize,
    n_ports: usize,
    kind: ShareKind,
) -> (r: Result<(), CircuitError>)
    requires
        tags_in_range(vars@, n_shares, n_ports, kind),
    ensures
        sharings_result(vars@, n_shares, n_ports, kind, r),
{
    let mut shares = new_table(n_shares, n_ports);
    let n = vars.len();
    let mut i: usize = 0;
    while i < n
        invariant
            i <= n,
            n == vars@.len(),
            tags_in_range(vars@, n_shares, n_ports, kind),
            shares@.len() == n_ports,
            forall|p: int| 0 <= p < n_ports ==> (#[trigger] shares@[p])@.len() == n_shares,
            forall|p: usize, s: usize|
                p < n_ports && s < n_shares ==> (shares@[p as int]@[s as int] <==> tagged(
                    vars@,
                    kind,
                    i as int,
                    p,
                    s,
                )),
            forall|j: int| 0 <= j < i ==> !repeats(vars@, kind, j),
        decreases n - i,
    {
        let tag = extract_port_share(&vars[i], kind);
        assert(share_tag(vars@[i as int], kind) == tag);
        if let Some((port, share)) = tag {
            if shares[port][share] {
                proof {
                    assert(tagged(vars@, kind, i as int, port, share));
                    let i0 = choose|i0: int|
                        0 <= i0 < i && #[trigger] share_tag(vars@[i0], kind) == Some((port, share));
                    assert(share_tag(vars@[i0], kind) == share_tag(vars@[i as int], kind));
                    assert(repeats(vars@, kind, i as int));
                }
                return Err(CircuitError::DuplicateShare { kind, port, share });
            }
            shares[port][share] = true;
            proof {
                assert(!repeats(vars@, kind, i as int)) by {
                    if repeats(vars@, kind, i as int) {
                        let i0 = choose|i0: int|
                            0 <= i0 < i && share_tag(vars@[i as int], kind) is Some
                                && #[trigger] share_tag(vars@[i0], kind) == share_tag(
                                vars@[i as int],
                                kind,
                            );
                        assert(tagged(vars@, kind, i as int, port, share));
                    }
                }
            }
        } else {
            assert(!repeats(vars@, kind, i as int));
        }
        proof {
            assert forall|p: usize, s: usize| p < n_ports && s < n_shares implies (
            shares@[p as int]@[s as int] <==> tagged(vars@, kind, i + 1, p, s)) by {
                if tagged(vars@, kind, i as int, p, s) {
                    let i0 = choose|i0: int|
                        0 <= i0 < i && #[trigger] share_tag(vars@[i0], kind) == Some((p, s));
                    assert(share_tag(vars@[i0], kind) == Some((p, s)));
                }
                if tagged(vars@, kind, i + 1, p, s) {
                    let i0 = choose|i0: int|
                        0 <= i0 < i + 1 && #[trigger] share_tag(vars@[i0], kind) == Some((p, s));
                    if i0 < i {
                        assert(tagged(vars@, kind, i as int, p, s));
                    }
                }
                if tag == Some((p, s)) {
                    assert(share_tag(vars@[i as int], kind) == Some((p, s)));
                }
            }
        }
        i = i + 1;
    }
    let mut missing_shares: Vec<(usize, usize)> = Vec::new();
    let mut ip: usize = 0;
    while ip < n_ports
        invariant
            ip <= n_ports,
            n == vars@.len(),
            shares@.len() == n_ports,
            forall|p: int| 0 <= p < n_ports ==> (#[trigger] shares@[p])@.len() == n_shares,
            forall|p: usize, s: usize|
                p < n_ports && s < n_shares ==> (shares@[p as int]@[s as int] <==> tagged(
                    vars@,
                    kind,
                    n as int,
                    p,
                    s,
                )),
            is_missing_list(vars@, n_shares, n_ports, kind, missing_shares@, (ip, 0)),
        decreases n_ports - ip,
    {
        let mut is: usize = 0;
        while is < n_shares
            invariant
                ip < n_ports,
                is <= n_shares,
                n == vars@.len(),
                shares@.len() == n_ports,
                forall|p: int| 0 <= p < n_ports ==> (#[trigger] shares@[p])@.len() == n_shares,
                forall|p: usize, s: usize|
                    p < n_ports && s < n_shares ==> (shares@[p as int]@[s as int] <==> tagged(
                        vars@,
                        kind,
                        n as int,
                        p,
                        s,
                    )),
                is_missing_list(vars@, n_shares, n_ports, kind, missing_shares@, (ip, is)),
            decreases n_shares - is,
        {
            let ghost before = missing_shares@;
            if !shares[ip][is] {
                missing_shares.push((ip, is));
            }
            proof {
                let after = missing_shares@;
                let here = !shares@[ip as int]@[is as int];
                let limit = (ip, (is + 1) as usize);
                assert(here <==> !tagged(vars@, kind, n as int, ip, is));
                assert forall|m: (usize, usize)| #[trigger]
                    after.contains(m) <==> is_missing(
                        vars@,
                        n_shares,
                        n_ports,
                        kind,
                        m,
                        limit,
                    ) by {
                    assert(before.contains(m) <==> is_missing(
                        vars@,
                        n_shares,
                        n_ports,
                        kind,
                        m,
                        (ip, is),
                    ));
                    if after.contains(m) {
                        let k = choose|k: int| 0 <= k < after.len() && after[k] == m;
                        if k < before.len() {
                            assert(before[k] == m);
                        } else {
                            assert(here && m == (ip, is));
                        }
                    }
                    if before.contains(m) {
                        let k = choose|k: int| 0 <= k < before.len() && before[k] == m;
                        assert(after[k] == m);
                    }
                    if m == (ip, is) && here {
                        assert(after[after.len() - 1] == m);
                    }
                }
                assert forall|a: int, b: int| 0 <= a < b < after.len() implies share_lt(
                    after[a],
                    after[b],
                ) by {
                    if b < before.len() {
                        assert(after[a] == before[a] && after[b] == before[b]);
                    } else {
                        assert(after[a] == before[a]);
                        assert(before.contains(before[a]));
                        assert(after[b] == (ip, is));
                    }
                }
            }
            is = is + 1;
        }
        proof {
            let l = missing_shares@;
            assert forall|m: (usize, usize)| #[trigger]
                l.contains(m) <==> is_missing(
                    vars@,
                    n_shares,
                    n_ports,
                    kind,
                    m,
                    ((ip + 1) as usize, 0),
                ) by {
                assert(l.contains(m) <==> is_missing(
                    vars@,
                    n_shares,
                    n_ports,
                    kind,
                    m,
                    (ip, n_shares),
                ));
            }
        }
        ip = ip + 1;
    }
    if missing_shares.len() > 0 {
        return Err(CircuitError::MissingShares { kind, shares: missing_shares });
    }
    proof {
        assert forall|p: usize, s: usize| p < n_ports && s < n_shares implies tagged(
            vars@,
            kind,
            vars@.len() as int,
            p,
            s,
        ) by {
            if !tagged(vars@, kind, vars@.len() as int, p, s) {
                assert(is_missing(vars@, n_shares, n_ports, kind, (p, s), (n_ports, 0)));
                assert(missing_shares@.contains((p, s)));
            }
        }
    }
    Ok(())
}

/// An error of the check of the sharings tells that they are not complete.
proof fn lemma_sharings_error(
    vars: Seq<Var>,
    n_shares: usize,
    n_ports: usize,
    kind: ShareKind,
    e: CircuitError,
)
    requires
        sharings_result(vars, n_shares, n_ports, kind, Err(e)),
    ensures
        !sharings_complete(vars, n_shares, n_ports, kind),
{
    match e {
        CircuitError::MissingShares { kind: k, shares } => {
            let m = shares@[0];
            assert(shares@.contains(m));
            assert(is_missing(vars, n_shares, n_ports, kind, m, (n_ports, 0)));
            assert(!tagged(vars, kind, vars.len() as int, m.0, m.1));
        },
        _ => {},
    }
}

/// The circuit of a list of variables. Where the list is no circuit, the first of these is
/// given: that two names are the same; the first name that begins with `input` or `output`;
/// the first operand that does not come before its variable; what the check of the shares of
/// the inputs gives, then that of the outputs.
pub fn new_sl_sc(vars: Vec<Var>, n_shares: usize, n_input_ports: usize, n_output_ports: usize) -> (r:
    Result<SlSharedCircuit, CircuitError>)
    requires
        tags_in_range(vars@, n_shares, n_input_ports, ShareKind::Input),
        tags_in_range(vars@, n_shares, n_output_ports, ShareKind::Output),
    ensures
        r is Ok <==> circuit_valid(vars@, n_shares, n_input_ports, n_output_ports),
        match r {
            Ok(c) => {
                &&& c.wf()
                &&& c.vars@ == vars@
                &&& c.n_shares == n_shares
                &&& c.n_input_ports == n_input_ports
                &&& c.n_output_ports == n_output_ports
            },
            Err(CircuitError::NonUniqueNames) => !names_unique(vars@),
            Err(CircuitError::ReservedName(name)) => {
                &&& names_unique(vars@)
                &&& exists|k: int| #[trigger] first_reserved(vars@, k) && name@ == vars@[k].name@
            },
            Err(CircuitError::InvalidOpSorting { var, op }) => {
                &&& names_unique(vars@)
                &&& none_reserved(vars@)
                &&& first_unsorted(sources(vars@), var as int, op)
            },
            Err(e) => {
                &&& names_unique(vars@)
                &&& none_reserved(vars@)
                &&& topological(sources(vars@))
                &&& {
                    ||| sharings_result(vars@, n_shares, n_input_ports, ShareKind::Input, Err(e))
                    ||| {
                        &&& sharings_complete(vars@, n_shares, n_input_ports, ShareKind::Input)
                        &&& sharings_result(
                            vars@,
                            n_shares,
                            n_output_ports,
                            ShareKind::Output,
                            Err(e),
                        )
                    }
                }
            },
        },
{
    if !is_unique(vars.as_slice()) {
        return Err(CircuitError::NonUniqueNames);
    }
    match check_no_io(vars.as_slice()) {
        Err(name) => {
            proof {
                let k = choose|k: int| #[trigger] first_reserved(vars@, k) && name@ == vars@[k].name@;
                assert(reserved(vars@[k].name@));
            }
            return Err(CircuitError::ReservedName(name));
        },
        Ok(_) => {},
    }
    let ghost srcs = sources(vars@);
    let n = vars.len();
    let mut i: usize = 0;
    while i < n
        invariant
            i <= n,
            n == vars@.len(),
            srcs == sources(vars@),
            names_unique(vars@),
            none_reserved(vars@),
            topological(srcs.subrange(0, i as int)),
        decreases n - i,
    {
        let ops = vars[i].src.operands();
        assert(srcs[i as int] == vars@[i as int].src);
        let mut k: usize = 0;
        while k < ops.len()
            invariant
                k <= ops@.len(),
                i < n,
                n == vars@.len(),
                srcs == sources(vars@),
                ops@ == srcs[i as int].operands_spec(),
                names_unique(vars@),
                none_reserved(vars@),
                topological(srcs.subrange(0, i as int)),
                forall|l: int| 0 <= l < k ==> ops@[l] < i,
            decreases ops@.len() - k,
        {
            let op = ops[k];
            if op >= i {
                proof {
                    assert(srcs[i as int].operands_spec()[k as int] == op);
                    assert(first_unsorted(srcs, i as int, op));
                    assert(!topological(srcs));
                }
                return Err(CircuitError::InvalidOpSorting { var: i, op });
            }
            k = k + 1;
        }
        proof {
            let a = srcs.subrange(0, i as int);
            let b = srcs.subrange(0, i + 1);
            assert forall|v: int, l: int|
                0 <= v < b.len() && 0 <= l < b[v].operands_spec().len() implies (
            #[trigger] b[v].operands_spec()[l]) < v by {
                if v < i {
                    assert(a[v] == b[v]);
                }
            }
        }
        i = i + 1;
    }
    assert(srcs.subrange(0, n as int) =~= srcs);
    match check_completeness_sharings(vars.as_slice(), n_shares, n_input_ports, ShareKind::Input) {
        Err(e) => {
            proof {
                lemma_sharings_error(vars@, n_shares, n_input_ports, ShareKind::Input, e);
            }
            return Err(e);
        },
        Ok(_) => {},
    }
    match check_completeness_sharings(
        vars.as_slice(),
        n_shares,
        n_output_ports,
        ShareKind::Output,
    ) {
        Err(e) => {
            proof {
                lemma_sharings_error(vars@, n_shares, n_output_ports, ShareKind::Output, e);
            }
            return Err(e);
        },
        Ok(_) => {},
    }
    Ok(SlSharedCircuit::new(vars, n_shares, n_input_ports, n_output_ports))
}

/// The kind of a variable that is a share of an input.
pub const VAR_KIND_INPUT: u32 = 0;

/// The kind of a variable that is a fresh random bit.
pub const VAR_KIND_RANDOM: u32 = 1;

/// The kind of a variable that is the sum of two variables.
pub const VAR_KIND_SUM: u32 = 2;

/// The kind of a variable that is the product of two variables.
pub const VAR_KIND_PRODUCT: u32 = 3;

/// The kind of a variable that is the negation of a variable.
pub const VAR_KIND_NOT: u32 = 4;

/// Why the description of a variable is none.
#[derive(Debug, Clone, Copy, PartialEq, Eq)]
pub enum GraphError {
    /// A share of an input is given no port.
    InputHasNoPort,
    /// A sum or a product is not given two operands, or a negation not one.
    WrongOpsCount,
    /// The kind is none of the five, or a variable that is no input is given a port.
    InvalidKindOrPort { kind: u32, port: Option<(usize, usize)> },
}

/// The variable that a description gives: its kind, its operands, its name, the share of an
/// input that it is, and the share of an output that it is. The operands of a sum or of a
/// product are put in increasing order.
pub open spec fn described(
    kind: u32,
    ops: Seq<usize>,
    name: String,
    in_port: Option<(usize, usize)>,
    out_port: Option<(usize, usize)>,
) -> Result<Var, GraphError> {
    let pair = if ops.len() == 2 {
        if ops[0] <= ops[1] {
            [ops[0], ops[1]]
        } else {
            [ops[1], ops[0]]
        }
    } else {
        [0, 0]
    };
    match in_port {
        Some((port, share)) => if kind == 0 {
            Ok(Var { src: VarSrc::Input(port, share), output_port: out_port, name })
        } else {
            Err(GraphError::InvalidKindOrPort { kind, port: in_port })
        },
        None => if kind == 0 {
            Err(GraphError::InputHasNoPort)
        } else if kind == 1 {
            Ok(Var { src: VarSrc::Random, output_port: out_port, name })
        } else if kind == 2 {
            if ops.len() == 2 {
                Ok(Var { src: VarSrc::Sum(pair), output_port: out_port, name })
            } else {
                Err(GraphError::WrongOpsCount)
            }
        } else if kind == 3 {
            if ops.len() == 2 {
                Ok(Var { src: VarSrc::Product(pair), output_port: out_port, name })
            } else {
                Err(GraphError::WrongOpsCount)
            }
        } else if kind == 4 {
            if ops.len() == 1 {
                Ok(Var { src: VarSrc::Not([ops[0]]), output_port: out_port, name })
            } else {
                Err(GraphError::WrongOpsCount)
            }
        } else {
            Err(GraphError::InvalidKindOrPort { kind, port: in_port })
        },
    }
}

/// The variable that description `i` of the lists gives.
pub open spec fn described_at(
    vars: Seq<(u32, Vec<usize>, String)>,
    in_ports: Seq<Option<(usize, usize)>>,
    out_ports: Seq<Option<(usize, usize)>>,
    i: int,
) -> Result<Var, GraphError> {
    described(vars[i].0, vars[i].1@, vars[i].2, in_ports[i], out_ports[i])
}

/// The two operands of a list in increasing order.
fn sorted_pair(ops: &Vec<usize>) -> (r: Result<[usize; 2], GraphError>)
    ensures
        ops@.len() != 2 ==> r == Err::<[usize; 2], GraphError>(GraphError::WrongOpsCount),
        ops@.len() == 2 ==> r == Ok::<[usize; 2], GraphError>(
            if ops@[0] <= ops@[1] {
                [ops@[0], ops@[1]]
            } else {
                [ops@[1], ops@[0]]
            },
        ),
{
    if ops.len() != 2 {
        Err(GraphError::WrongOpsCount)
    } else if ops[0] <= ops[1] {
        Ok([ops[0], ops[1]])
    } else {
        Ok([ops[1], ops[0]])
    }
}

/// The variables that a list of descriptions gives: for each variable its kind, its operands
/// and its name; the share of an input that it is; the share of an output that it is. The
/// lists are read as far as the shortest goes. Gives the first error.
pub fn vecs2graph(
    vars: Vec<(u32, Vec<usize>, String)>,
    in_ports: Vec<Option<(usize, usize)>>,
    out_ports: Vec<Option<(usize, usize)>>,
) -> (r: Result<Vec<Var>, GraphError>)
    ensures
        match r {
            Ok(vs) => {
                &&& vs@.len() <= vars@.len()
                &&& vs@.len() <= in_ports@.len()
                &&& vs@.len() <= out_ports@.len()
                &&& vs@.len() == vars@.len() || vs@.len() == in_ports@.len() || vs@.len()
                    == out_ports@.len()
                &&& forall|i: int|
                    0 <= i < vs@.len() ==> #[trigger] described_at(
                        vars@,
                        in_ports@,
                        out_ports@,
                        i,
                    ) == Ok::<Var, GraphError>(vs@[i])
            },
            Err(e) => exists|i: int|
                0 <= i < vars@.len() && i < in_ports@.len() && i < out_ports@.len()
                    && #[trigger] described_at(vars@, in_ports@, out_ports@, i) == Err::<
                    Var,
                    GraphError,
                >(e) && forall|j: int|
                    0 <= j < i ==> (#[trigger] described_at(vars@, in_ports@, out_ports@, j)) is Ok,
        },
{
    let mut n = vars.len();
    if in_ports.len() < n {
        n = in_ports.len();
    }
    if out_ports.len() < n {
        n = out_ports.len();
    }
    let mut res: Vec<Var> = Vec::new();
    let mut i: usize = 0;
    while i < n
        invariant
            i <= n,
            n <= vars@.len(),
            n <= in_ports@.len(),
            n <= out_ports@.len(),
            n == vars@.len() || n == in_ports@.len() || n == out_ports@.len(),
            res@.len() == i,
            forall|j: int|
                0 <= j < i ==> #[trigger] described_at(vars@, in_ports@, out_ports@, j) == Ok::<
                    Var,
                    GraphError,
                >(res@[j]),
        decreases n - i,
    {
        let kind = vars[i].0;
        let ops = &vars[i].1;
        let in_port = in_ports[i];
        let out_port = out_ports[i];
        let ghost d = described_at(vars@, in_ports@, out_ports@, i as int);
        let src = match in_port {
            Some((port, share)) => {
                if kind == 0 {
                    VarSrc::Input(port, share)
                } else {
                    assert(d == Err::<Var, GraphError>(
                        GraphError::InvalidKindOrPort { kind, port: in_port },
                    ));
                    return Err(GraphError::InvalidKindOrPort { kind, port: in_port });
                }
            },
            None => {
                if kind == 0 {
                    assert(d == Err::<Var, GraphError>(GraphError::InputHasNoPort));
                    return Err(GraphError::InputHasNoPort);
                } else if kind == 1 {
                    VarSrc::Random
                } else if kind == 2 {
                    match sorted_pair(ops) {
                        Ok(pair) => VarSrc::Sum(pair),
                        Err(e) => {
                            assert(d == Err::<Var, GraphError>(e));
                            return Err(e);
                        },
                    }
                } else if kind == 3 {
                    match sorted_pair(ops) {
                        Ok(pair) => VarSrc::Product(pair),
                        Err(e) => {
                            assert(d == Err::<Var, GraphError>(e));
                            return Err(e);
                        },
                    }
                } else if kind == 4 {
                    if ops.len() == 1 {
                        VarSrc::Not([ops[0]])
                    } else {
                        assert(d == Err::<Var, GraphError>(GraphError::WrongOpsCount));
                        return Err(GraphError::WrongOpsCount);
                    }
                } else {
                    assert(d == Err::<Var, GraphError>(
                        GraphError::InvalidKindOrPort { kind, port: in_port },
                    ));
                    return Err(GraphError::InvalidKindOrPort { kind, port: in_port });
                }
            },
        };
        res.push(Var { src, output_port: out_port, name: vars[i].2.clone() });
        i = i + 1;
    }
    Ok(res)
}

} // verus!
