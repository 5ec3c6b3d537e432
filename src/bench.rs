use vstd::prelude::*;

use crate::bytes::{append_bytes, bytes_eq, copy_range};
use crate::command::Command;
use crate::fields::FieldMap;

verus! {

/// Operations issued per phase of one benchmark pass.
pub const ITERATIONS: u64 = 100;

/// The server port the benchmark connects to unless told otherwise.
pub const DEFAULT_PORT: u16 = 8080;

/// The decimal digits of `n`, most significant first.
pub open spec fn decimal(n: nat) -> Seq<u8>
    decreases n,
{
    if n < 10 {
        seq![(48 + n) as u8]
    } else {
        decimal(n / 10) + seq![(48 + n % 10) as u8]
    }
}

/// The key `benchmark-<prefix>-<i>`.
pub open spec fn key_text(prefix: Seq<u8>, i: nat) -> Seq<u8> {
    seq![98u8, 101, 110, 99, 104, 109, 97, 114, 107, 45] + prefix + seq![45u8] + decimal(i)
}

fn push_decimal(r: &mut Vec<u8>, n: u64)
    ensures
        final(r)@ == old(r)@ + decimal(n as nat),
    decreases n,
{
    if n >= 10 {
        push_decimal(r, n / 10);
    }
    r.push(48u8 + (n % 10) as u8);
    assert(final(r)@ =~= old(r)@ + decimal(n as nat));
}

/// The key that iteration `i` of a benchmark pass with this prefix uses.
pub fn benchmark_key(prefix: &[u8], i: u64) -> (r: Vec<u8>)
    ensures
        r@ == key_text(prefix@, i as nat),
{
    let mut r: Vec<u8> = vec![98u8, 101, 110, 99, 104, 109, 97, 114, 107, 45];
    append_bytes(&mut r, prefix);
    r.push(45u8);
    push_decimal(&mut r, i);
    assert(r@ =~= key_text(prefix@, i as nat));
    r
}

/// The three phases of a benchmark pass, in the order they run.
#[derive(Clone, Copy, Debug, PartialEq, Eq, Structural)]
pub enum Phase {
    Insert,
    Query,
    Remove,
}

/// The command that iteration `i` of `phase` sends: an insert stores the
/// key as its own value; a query and a remove name the key.
pub fn benchmark_command(phase: Phase, prefix: &[u8], i: u64) -> (r: Command)
    ensures
        match phase {
            Phase::Insert => r matches Command::Insert { key, value } && key@ == key_text(
                prefix@,
                i as nat,
            ) && value@ == key@,
            Phase::Query => r matches Command::Query { key } && key@ == key_text(prefix@, i as nat),
            Phase::Remove => r matches Command::Remove { key } && key@ == key_text(
                prefix@,
                i as nat,
            ),
        },
{
    let key = benchmark_key(prefix, i);
    match phase {
        Phase::Insert => {
            let value = copy_range(key.as_slice(), 0, key.len());
            assert(value@ =~= key@);
            Command::Insert { key, value }
        },
        Phase::Query => Command::Query { key },
        Phase::Remove => Command::Remove { key },
    }
}

/// Why the answer to a benchmark query was rejected.
#[derive(Clone, Copy, Debug, PartialEq, Eq, Structural)]
pub enum ValidationFailure {
    /// The server returned no entry.
    MissingEntry,
    /// An entry's key and value differ, or the key is not the one asked for.
    Mismatch,
}

/// Whether every entry of `m` maps the expected key to itself.
pub open spec fn echoes(m: Map<Seq<u8>, Seq<u8>>, expected: Seq<u8>) -> bool {
    forall|k: Seq<u8>| #[trigger] m.contains_key(k) ==> k == expected && m[k] == k
}

/// Checks the answer to the query for `expected`: it must hold an entry, and
/// each entry's key and value must both be the expected key.
pub fn validate_query(response: &FieldMap, expected: &[u8]) -> (r: Result<(), ValidationFailure>)
    requires
        response.wf(),
    ensures
        r == Ok::<(), ValidationFailure>(()) <==> response@.len() > 0 && echoes(
            response@,
            expected@,
        ),
        r == Err::<(), ValidationFailure>(ValidationFailure::MissingEntry) <==> response@.len() == 0,
        r == Err::<(), ValidationFailure>(ValidationFailure::Mismatch) <==> response@.len() > 0
            && !echoes(response@, expected@),
{
    let n = response.len();
    if n == 0 {
        return Err(ValidationFailure::MissingEntry);
    }
    proof {
        response.lemma_pairs();
    }
    let mut i: usize = 0;
    while i < n
        invariant
            response.wf(),
            n == response@.len(),
            i <= n,
            response.pairs().len() == n,
            forall|j: int|
                0 <= j < i ==> (#[trigger] response.pairs()[j]).0 == expected@
                    && response.pairs()[j].1 == expected@,
        decreases n - i,
    {
        let (k, v) = response.pair_at(i);
        if !bytes_eq(k.as_slice(), v.as_slice()) || !bytes_eq(k.as_slice(), expected) {
            assert(!echoes(response@, expected@));
            return Err(ValidationFailure::Mismatch);
        }
        i = i + 1;
    }
    proof {
        response.lemma_pairs();
        assert forall|k: Seq<u8>| #[trigger] response@.contains_key(k) implies k == expected@
            && response@[k] == k by {
            let j = choose|j: int| 0 <= j < response.pairs().len() && response.pairs()[j].0 == k;
            assert(response.pairs()[j].0 == expected@);
        }
    }
    Ok(())
}

} // verus!
