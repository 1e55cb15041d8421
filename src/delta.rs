use vstd::prelude::*;
use vstd::string::*;

verus! {

/// One edit primitive. Offsets and lengths count characters, not bytes.
pub enum Operation {
    /// Splice the text in at the offset.
    Insert((usize, String)),
    /// Remove the given number of characters starting at the offset.
    Delete((usize, usize)),
}

/// A timestamped batch of operations, applied in order.
pub struct Delta {
    pub operations: Vec<Operation>,
    pub timestamp_ms: u64,
}

/// An operation reached outside the buffer it was applied to.
#[derive(Debug, PartialEq, Eq, Structural)]
pub struct ReconstructionError {
    /// Position of the delta that failed.
    pub delta_index: usize,
}

/// The buffer after one operation, or `None` when the operation leaves the buffer's bounds.
pub open spec fn apply_op(buf: Seq<char>, op: Operation) -> Option<Seq<char>> {
    match op {
        Operation::Insert((o, t)) => if o <= buf.len() {
            Some(buf.take(o as int) + t@ + buf.skip(o as int))
        } else {
            None
        },
        Operation::Delete((o, n)) => if o + n <= buf.len() {
            Some(buf.take(o as int) + buf.skip(o + n))
        } else {
            None
        },
    }
}

/// The buffer after the operations, each applied to the result of the one before.
pub open spec fn apply_ops(buf: Seq<char>, ops: Seq<Operation>) -> Option<Seq<char>>
    decreases ops.len(),
{
    if ops.len() == 0 {
        Some(buf)
    } else {
        match apply_ops(buf, ops.drop_last()) {
            Some(b) => apply_op(b, ops.last()),
            None => None,
        }
    }
}

/// The content after replaying all the deltas on an empty buffer.
pub open spec fn replay(ds: Seq<Delta>) -> Option<Seq<char>>
    decreases ds.len(),
{
    if ds.len() == 0 {
        Some(Seq::empty())
    } else {
        match replay(ds.drop_last()) {
            Some(b) => apply_ops(b, ds.last().operations@),
            None => None,
        }
    }
}

/// The content as of delta `i`: deltas `0..=i` replayed.
pub open spec fn snapshot(ds: Seq<Delta>, i: int) -> Option<Seq<char>> {
    replay(ds.take(i + 1))
}

/// Index of the first delta whose replay fails (`ds.len()` when none does).
pub open spec fn first_failure(ds: Seq<Delta>) -> int
    decreases ds.len(),
{
    if ds.len() == 0 {
        0
    } else if replay(ds.drop_last()) is None {
        first_failure(ds.drop_last())
    } else if replay(ds) is None {
        ds.len() - 1
    } else {
        ds.len() as int
    }
}

/// Once a replay fails, every longer replay fails too.
pub proof fn lemma_replay_prefix(ds: Seq<Delta>, k: int)
    requires
        0 <= k <= ds.len(),
        replay(ds) is Some,
    ensures
        replay(ds.take(k)) is Some,
    decreases ds.len(),
{
    if k < ds.len() {
        assert(ds.drop_last() =~= ds.take(ds.len() - 1));
        lemma_replay_prefix(ds.drop_last(), k);
        assert(ds.drop_last().take(k) =~= ds.take(k));
    } else {
        assert(ds.take(k) =~= ds);
    }
}

fn copy_chars(v: &Vec<char>, from: usize, to: usize, out: &mut Vec<char>)
    requires
        from <= to <= v@.len(),
    ensures
        final(out)@ == old(out)@ + v@.subrange(from as int, to as int),
{
    let mut i = from;
    while i < to
        invariant
            from <= i <= to <= v@.len(),
            out@ == old(out)@ + v@.subrange(from as int, i as int),
        decreases to - i,
    {
        out.push(v[i]);
        assert(v@.subrange(from as int, i + 1) =~= v@.subrange(from as int, i as int).push(v@[i as int]));
        i = i + 1;
    }
}

pub(crate) fn push_str_chars(s: &String, out: &mut Vec<char>)
    ensures
        final(out)@ == old(out)@ + s@,
{
    let t = s.as_str();
    let n = t.unicode_len();
    let mut i: usize = 0;
    while i < n
        invariant
            n == t@.len(),
            t@ == s@,
            i <= n,
            out@ == old(out)@ + s@.take(i as int),
        decreases n - i,
    {
        let c = t.get_char(i);
        out.push(c);
        assert(s@.take(i + 1) =~= s@.take(i as int).push(c));
        i = i + 1;
    }
    assert(s@.take(n as int) =~= s@);
}

/// Applies one operation to the buffer, giving `None` when it is out of bounds.
pub fn apply_operation(buf: &Vec<char>, op: &Operation) -> (r: Option<Vec<char>>)
    ensures
        match r {
            Some(v) => apply_op(buf@, *op) == Some(v@),
            None => apply_op(buf@, *op) is None,
        },
{
    match op {
        Operation::Insert((o, t)) => {
            if *o <= buf.len() {
                let mut out: Vec<char> = Vec::new();
                copy_chars(buf, 0, *o, &mut out);
                push_str_chars(t, &mut out);
                copy_chars(buf, *o, buf.len(), &mut out);
                assert(buf@.subrange(0, *o as int) =~= buf@.take(*o as int));
                assert(buf@.subrange(*o as int, buf@.len() as int) =~= buf@.skip(*o as int));
                Some(out)
            } else {
                None
            }
        },
        Operation::Delete((o, n)) => {
            if *o <= buf.len() && *n <= buf.len() - *o {
                let mut out: Vec<char> = Vec::new();
                copy_chars(buf, 0, *o, &mut out);
                copy_chars(buf, *o + *n, buf.len(), &mut out);
                assert(buf@.subrange(0, *o as int) =~= buf@.take(*o as int));
                assert(buf@.subrange(*o + *n, buf@.len() as int) =~= buf@.skip(*o + *n));
                Some(out)
            } else {
                None
            }
        },
    }
}

/// Applies the delta's operations in order.
pub fn apply_delta(buf: &Vec<char>, delta: &Delta) -> (r: Option<Vec<char>>)
    ensures
        match r {
            Some(v) => apply_ops(buf@, delta.operations@) == Some(v@),
            None => apply_ops(buf@, delta.operations@) is None,
        },
{
    let mut cur: Vec<char> = copy_all(buf);
    let mut i: usize = 0;
    while i < delta.operations.len()
        invariant
            i <= delta.operations@.len(),
            apply_ops(buf@, delta.operations@.take(i as int)) == Some(cur@),
        decreases delta.operations@.len() - i,
    {
        assert(delta.operations@.take(i + 1).drop_last() =~= delta.operations@.take(i as int));
        match apply_operation(&cur, &delta.operations[i]) {
            Some(next) => {
                assert(delta.operations@.take(i + 1).last() == delta.operations@[i as int]);
                cur = next;
            },
            None => {
                proof {
                    assert(delta.operations@.take(i + 1).last() == delta.operations@[i as int]);
                    assert(apply_ops(buf@, delta.operations@.take(i + 1)) is None);
                    lemma_ops_fail_extend(buf@, delta.operations@, i as int + 1);
                    assert(apply_ops(buf@, delta.operations@) is None);
                }
                return None;
            },
        }
        i = i + 1;
    }
    assert(delta.operations@.take(i as int) =~= delta.operations@);
    Some(cur)
}

proof fn lemma_ops_fail_extend(buf: Seq<char>, ops: Seq<Operation>, k: int)
    requires
        0 <= k <= ops.len(),
        apply_ops(buf, ops.take(k)) is None,
    ensures
        apply_ops(buf, ops) is None,
    decreases ops.len() - k,
{
    if k < ops.len() {
        assert(ops.take(k + 1).drop_last() =~= ops.take(k));
        lemma_ops_fail_extend(buf, ops, k + 1);
    } else {
        assert(ops.take(k) =~= ops);
    }
}

pub(crate) fn copy_all(v: &Vec<char>) -> (r: Vec<char>)
    ensures
        r@ == v@,
{
    let mut out: Vec<char> = Vec::new();
    copy_chars(v, 0, v.len(), &mut out);
    assert(v@.subrange(0, v@.len() as int) =~= v@);
    out
}

proof fn lemma_first_failure_at(ds: Seq<Delta>, i: int)
    requires
        0 <= i < ds.len(),
        replay(ds.take(i)) is Some,
        replay(ds.take(i + 1)) is None,
    ensures
        first_failure(ds) == i,
    decreases ds.len(),
{
    let n = ds.len() as int;
    assert(ds.drop_last() =~= ds.take(n - 1));
    if i + 1 < n {
        if replay(ds.drop_last()) is Some {
            lemma_replay_prefix(ds.drop_last(), i + 1);
            assert(ds.drop_last().take(i + 1) =~= ds.take(i + 1));
        }
        assert(ds.drop_last().take(i) =~= ds.take(i));
        assert(ds.drop_last().take(i + 1) =~= ds.take(i + 1));
        lemma_first_failure_at(ds.drop_last(), i);
    } else {
        assert(ds.take(i + 1) =~= ds);
    }
}

/// Replays deltas `0..=upto` on a fresh buffer and returns its characters.
pub fn reconstruct_chars(deltas: &Vec<Delta>, upto: usize) -> (r: Result<Vec<char>, ReconstructionError>)
    requires
        upto < deltas@.len(),
    ensures
        match r {
            Ok(v) => snapshot(deltas@, upto as int) == Some(v@),
            Err(e) => snapshot(deltas@, upto as int) is None && e.delta_index as int == first_failure(
                deltas@.take(upto + 1),
            ),
        },
{
    let ghost ds = deltas@.take(upto + 1);
    let mut cur: Vec<char> = Vec::new();
    let mut i: usize = 0;
    let n = deltas.len();
    assert(ds.take(0) =~= Seq::<Delta>::empty());
    while i <= upto
        invariant
            upto < deltas@.len(),
            n == deltas@.len(),
            i <= upto + 1,
            ds == deltas@.take(upto + 1),
            replay(ds.take(i as int)) == Some(cur@),
        decreases upto + 1 - i,
    {
        assert(ds.take(i + 1).drop_last() =~= ds.take(i as int));
        assert(ds.take(i + 1).last() == deltas@[i as int]);
        match apply_delta(&cur, &deltas[i]) {
            Some(next) => {
                cur = next;
            },
            None => {
                proof {
                    lemma_first_failure_at(ds, i as int);
                    if replay(ds) is Some {
                        lemma_replay_prefix(ds, i + 1);
                    }
                }
                return Err(ReconstructionError { delta_index: i });
            },
        }
        i = i + 1;
    }
    assert(ds.take(i as int) =~= ds);
    Ok(cur)
}

/// Relies on String::push: appends the character at the end.
#[verifier::external_body]
fn push_char(s: &mut String, c: char)
    ensures
        final(s)@ == old(s)@.push(c),
{
    s.push(c);
}

/// The text made of the given characters.
pub fn string_of(chars: &Vec<char>) -> (r: String)
    ensures
        r@ == chars@,
{
    let mut s = String::new();
    let mut i: usize = 0;
    while i < chars.len()
        invariant
            i <= chars@.len(),
            s@ == chars@.take(i as int),
        decreases chars@.len() - i,
    {
        push_char(&mut s, chars[i]);
        assert(chars@.take(i + 1) =~= chars@.take(i as int).push(chars@[i as int]));
        i = i + 1;
    }
    assert(chars@.take(i as int) =~= chars@);
    s
}

/// The content of the file as of delta `upto`, rebuilt from an empty buffer.
/// Fails, naming the first delta that left the buffer's bounds, when an
/// operation's offset or range falls outside the buffer it is applied to.
pub fn reconstruct(deltas: &Vec<Delta>, upto: usize) -> (r: Result<String, ReconstructionError>)
    requires
        upto < deltas@.len(),
    ensures
        match r {
            Ok(s) => snapshot(deltas@, upto as int) == Some(s@),
            Err(e) => snapshot(deltas@, upto as int) is None && e.delta_index as int == first_failure(
                deltas@.take(upto + 1),
            ),
        },
{
    match reconstruct_chars(deltas, upto) {
        Ok(v) => Ok(string_of(&v)),
        Err(e) => Err(e),
    }
}

/// Reconstruction has no hidden state: two results that meet its contract
/// for the same deltas and position are the same text.
pub proof fn lemma_reconstruction_deterministic(ds: Seq<Delta>, i: int, a: Seq<char>, b: Seq<char>)
    requires
        snapshot(ds, i) == Some(a),
        snapshot(ds, i) == Some(b),
    ensures
        a == b,
{
}

} // verus!
