//! The front of the dump reader: inflate a gzipped table dump and frame it
//! into lines, keeping only the statement lines the loaders consume.

use vstd::prelude::*;

use std::io::Read;

verus! {

/// What a gzip stream inflates to, or nothing for a corrupt stream; a
/// function of the compressed bytes alone.
pub uninterp spec fn gunzip_of(data: Seq<u8>) -> Option<Seq<u8>>;

/// Relies on flate2's GzDecoder: inflating a gzip stream is deterministic
/// in its input bytes, and fails exactly on streams that do not decode.
#[verifier::external_body]
pub(crate) fn gunzip(data: &[u8]) -> (r: Option<Vec<u8>>)
    ensures
        r is Some <==> gunzip_of(data@) is Some,
        r is Some ==> r.unwrap()@ == gunzip_of(data@).unwrap(),
{
    let mut out: Vec<u8> = Vec::new();
    let mut decoder = flate2::read::GzDecoder::new(data);
    match decoder.read_to_end(&mut out) {
        Ok(_) => Some(out),
        Err(_) => None,
    }
}

/// The lines of `s`, split on the newline byte: every newline ends a line,
/// and the remainder after the last newline is the final line.
pub open spec fn spec_lines(s: Seq<u8>) -> Seq<Seq<u8>>
    decreases s.len(),
{
    if s.len() == 0 {
        seq![Seq::<u8>::empty()]
    } else if s[0] == 10u8 {
        seq![Seq::<u8>::empty()] + spec_lines(s.drop_first())
    } else {
        let rest = spec_lines(s.drop_first());
        seq![seq![s[0]] + rest[0]] + rest.drop_first()
    }
}

/// Splitting always yields at least the final line.
pub proof fn lemma_spec_lines_nonempty(s: Seq<u8>)
    ensures
        spec_lines(s).len() >= 1,
    decreases s.len(),
{
    if s.len() > 0 {
        lemma_spec_lines_nonempty(s.drop_first());
    }
}

/// The bytes of the statement prefix the loaders look for.
pub open spec fn spec_insert_prefix() -> Seq<u8> {
    seq![73u8, 78u8, 83u8, 69u8, 82u8, 84u8, 32u8]
}

/// A line that holds one SQL insert statement.
pub open spec fn spec_is_insert_line(l: Seq<u8>) -> bool {
    l.len() >= 7 && l.subrange(0, 7) == spec_insert_prefix()
}

/// The insert-statement lines among `ls`, in order.
pub open spec fn spec_insert_lines(ls: Seq<Seq<u8>>) -> Seq<Seq<u8>>
    decreases ls.len(),
{
    if ls.len() == 0 {
        Seq::<Seq<u8>>::empty()
    } else {
        let rest = spec_insert_lines(ls.drop_last());
        if spec_is_insert_line(ls.last()) {
            rest.push(ls.last())
        } else {
            rest
        }
    }
}

/// Copies one line.
fn clone_bytes(v: &Vec<u8>) -> (r: Vec<u8>)
    ensures
        r@ == v@,
{
    let mut r: Vec<u8> = Vec::new();
    let n = v.len();
    let mut i: usize = 0;
    while i < n
        invariant
            n == v@.len(),
            i <= n,
            r@ == v@.take(i as int),
        decreases n - i,
    {
        r.push(v[i]);
        proof {
            assert(r@ =~= v@.take(i + 1));
        }
        i += 1;
    }
    proof {
        assert(r@ =~= v@);
    }
    r
}

/// Whether one line is an insert statement.
fn is_insert_line(l: &Vec<u8>) -> (r: bool)
    ensures
        r == spec_is_insert_line(l@),
{
    if l.len() < 7 {
        return false;
    }
    let prefix: [u8; 7] = [73, 78, 83, 69, 82, 84, 32];
    let mut i: usize = 0;
    while i < 7
        invariant
            l@.len() >= 7,
            prefix@ == spec_insert_prefix(),
            i <= 7,
            forall|j: int| 0 <= j < i ==> l@[j] == spec_insert_prefix()[j],
        decreases 7 - i,
    {
        if l[i] != prefix[i] {
            proof {
                assert(l@.subrange(0, 7)[i as int] != spec_insert_prefix()[i as int]);
            }
            return false;
        }
        i += 1;
    }
    proof {
        assert(l@.subrange(0, 7) =~= spec_insert_prefix());
    }
    true
}

/// Splits a buffer into its lines.
fn split_lines(data: &Vec<u8>) -> (r: Vec<Vec<u8>>)
    ensures
        r@.map_values(|l: Vec<u8>| l@) == spec_lines(data@),
{
    let n = data.len();
    let mut done: Vec<Vec<u8>> = Vec::new();
    let mut cur: Vec<u8> = Vec::new();
    let mut i: usize = 0;
    proof {
        lemma_spec_lines_nonempty(data@);
        assert(data@.skip(0) =~= data@);
        assert(cur@ + spec_lines(data@)[0] =~= spec_lines(data@)[0]);
        assert(done@.map_values(|l: Vec<u8>| l@) + seq![cur@ + spec_lines(data@.skip(0))[0]]
            + spec_lines(data@.skip(0)).drop_first() =~= spec_lines(data@));
    }
    while i < n
        invariant
            n == data@.len(),
            i <= n,
            spec_lines(data@) == done@.map_values(|l: Vec<u8>| l@) + seq![
                cur@ + spec_lines(data@.skip(i as int))[0],
            ] + spec_lines(data@.skip(i as int)).drop_first(),
        decreases n - i,
    {
        let b = data[i];
        let ghost tail = data@.skip(i as int);
        proof {
            lemma_spec_lines_nonempty(data@.skip(i as int + 1));
            assert(tail.len() > 0);
            assert(tail[0] == data@[i as int]);
            assert(tail.drop_first() =~= data@.skip(i as int + 1));
        }
        if b == 10 {
            let ghost pre_done = done@;
            let ghost pre_cur = cur@;
            let finished = cur;
            cur = Vec::new();
            done.push(finished);
            proof {
                assert(spec_lines(tail) == seq![Seq::<u8>::empty()] + spec_lines(
                    data@.skip(i as int + 1),
                ));
                assert(pre_cur + spec_lines(tail)[0] =~= pre_cur);
                assert(done@.map_values(|l: Vec<u8>| l@) =~= pre_done.map_values(|l: Vec<u8>| l@)
                    + seq![pre_cur]);
                assert(spec_lines(data@) =~= done@.map_values(|l: Vec<u8>| l@) + seq![
                    cur@ + spec_lines(data@.skip(i as int + 1))[0],
                ] + spec_lines(data@.skip(i as int + 1)).drop_first());
            }
        } else {
            let ghost pre_cur = cur@;
            cur.push(b);
            proof {
                let rest = spec_lines(data@.skip(i as int + 1));
                assert(spec_lines(tail) == seq![seq![tail[0]] + rest[0]] + rest.drop_first());
                assert(spec_lines(tail)[0] == seq![tail[0]] + rest[0]);
                assert(pre_cur + spec_lines(tail)[0] =~= cur@ + rest[0]);
                assert(spec_lines(tail).drop_first() =~= rest.drop_first());
                assert(spec_lines(data@) =~= done@.map_values(|l: Vec<u8>| l@) + seq![
                    cur@ + rest[0],
                ] + rest.drop_first());
            }
        }
        i += 1;
    }
    proof {
        assert(data@.skip(n as int) =~= Seq::<u8>::empty());
        assert(spec_lines(Seq::<u8>::empty()) == seq![Seq::<u8>::empty()]);
        assert(cur@ + spec_lines(data@.skip(n as int))[0] =~= cur@);
        assert(spec_lines(data@.skip(n as int)).drop_first() =~= Seq::<Seq<u8>>::empty());
    }
    done.push(cur);
    proof {
        assert(done@.map_values(|l: Vec<u8>| l@) =~= spec_lines(data@));
    }
    done
}

/// Inflates a gzipped dump and returns its insert-statement lines, or
/// nothing for a stream that does not decode.
pub fn dump_insert_lines(gz: &[u8]) -> (r: Option<Vec<Vec<u8>>>)
    ensures
        r is Some <==> gunzip_of(gz@) is Some,
        r is Some ==> r.unwrap()@.map_values(|l: Vec<u8>| l@) == spec_insert_lines(
            spec_lines(gunzip_of(gz@).unwrap()),
        ),
{
    let data = match gunzip(gz) {
        Some(d) => d,
        None => {
            return None;
        },
    };
    let lines = split_lines(&data);
    let mut out: Vec<Vec<u8>> = Vec::new();
    let n = lines.len();
    let ghost all = lines@.map_values(|l: Vec<u8>| l@);
    let mut i: usize = 0;
    while i < n
        invariant
            n == lines@.len(),
            all == lines@.map_values(|l: Vec<u8>| l@),
            i <= n,
            out@.map_values(|l: Vec<u8>| l@) == spec_insert_lines(all.take(i as int)),
        decreases n - i,
    {
        proof {
            assert(all.take(i + 1).drop_last() =~= all.take(i as int));
            assert(all.take(i + 1).last() == all[i as int]);
            assert(all[i as int] == lines@[i as int]@);
        }
        let ghost pre = out@;
        if is_insert_line(&lines[i]) {
            let line = clone_bytes(&lines[i]);
            out.push(line);
            proof {
                assert(out@.map_values(|l: Vec<u8>| l@) =~= pre.map_values(|l: Vec<u8>| l@).push(
                    all[i as int],
                ));
            }
        }
        i += 1;
    }
    proof {
        assert(all.take(n as int) =~= all);
    }
    Some(out)
}

} // verus!
