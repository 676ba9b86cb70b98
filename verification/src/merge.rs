//! The reassembler: orders previously extracted fragments by name and
//! concatenates their contents into one byte stream.

use vstd::prelude::*;

verus! {

/// Strict lexicographic order on byte strings, as paths compare.
pub open spec fn bytes_lt(a: Seq<u8>, b: Seq<u8>) -> bool
    decreases a.len(),
{
    if b.len() == 0 {
        false
    } else if a.len() == 0 {
        true
    } else if a[0] != b[0] {
        a[0] < b[0]
    } else {
        bytes_lt(a.drop_first(), b.drop_first())
    }
}

/// Lexicographic order, allowing equality.
pub open spec fn bytes_le(a: Seq<u8>, b: Seq<u8>) -> bool {
    bytes_lt(a, b) || a == b
}

/// One fragment read back from the output directory: its file name and
/// its byte contents.
pub struct Fragment {
    pub name: Vec<u8>,
    pub content: Vec<u8>,
}

/// A fragment as the specification sees it.
pub ghost struct FragModel {
    pub name: Seq<u8>,
    pub content: Seq<u8>,
}

impl View for Fragment {
    type V = FragModel;

    open spec fn view(&self) -> FragModel {
        FragModel { name: self.name@, content: self.content@ }
    }
}

impl DeepView for Fragment {
    type V = FragModel;

    open spec fn deep_view(&self) -> FragModel {
        self.view()
    }
}

/// Where insertion sort places `x` in the already sorted `s`: before the
/// first entry whose name is not below `x`'s.
pub open spec fn insert_sorted(x: FragModel, s: Seq<FragModel>) -> Seq<FragModel>
    decreases s.len(),
{
    if s.len() == 0 {
        seq![x]
    } else if bytes_le(x.name, s[0].name) {
        seq![x] + s
    } else {
        seq![s[0]] + insert_sorted(x, s.drop_first())
    }
}

/// Insertion sort of fragments by name, the deterministic order in which
/// the reassembler reads them.
pub open spec fn sort_fragments_spec(s: Seq<FragModel>) -> Seq<FragModel>
    decreases s.len(),
{
    if s.len() == 0 {
        Seq::empty()
    } else {
        insert_sorted(s[0], sort_fragments_spec(s.drop_first()))
    }
}

/// The concatenated contents of `s`, in order.
pub open spec fn concat_contents(s: Seq<FragModel>) -> Seq<u8>
    decreases s.len(),
{
    if s.len() == 0 {
        Seq::empty()
    } else {
        s[0].content + concat_contents(s.drop_first())
    }
}

/// Fragment names strictly increase along `s`.
pub open spec fn strictly_increasing_names(s: Seq<FragModel>) -> bool {
    forall|k: int, l: int| 0 <= k < l < s.len() ==> bytes_lt(s[k].name, s[l].name)
}

/// Sorting leaves a sequence whose names already strictly increase
/// untouched.
pub proof fn lemma_sort_identity(s: Seq<FragModel>)
    requires
        strictly_increasing_names(s),
    ensures
        sort_fragments_spec(s) == s,
    decreases s.len(),
{
    if s.len() > 0 {
        let rest = s.drop_first();
        assert forall|k: int, l: int| 0 <= k < l < rest.len() implies bytes_lt(
            rest[k].name,
            rest[l].name,
        ) by {
            assert(rest[k] == s[k + 1]);
            assert(rest[l] == s[l + 1]);
        }
        lemma_sort_identity(rest);
        if rest.len() == 0 {
            assert(sort_fragments_spec(s) =~= s);
        } else {
            assert(rest[0] == s[1]);
            assert(bytes_lt(s[0].name, s[1].name));
            assert(insert_sorted(s[0], rest) == seq![s[0]] + rest);
            assert(seq![s[0]] + rest =~= s);
        }
    }
}

/// Compares two byte buffers lexicographically.
pub fn bytes_le_exec(a: &[u8], b: &[u8]) -> (r: bool)
    ensures
        r == bytes_le(a@, b@),
{
    proof {
        assert(a@.len() == a.len());
        assert(b@.len() == b.len());
    }
    let n = if a.len() < b.len() {
        a.len()
    } else {
        b.len()
    };
    let mut k: usize = 0;
    while k < n
        invariant
            k <= n,
            n <= a@.len(),
            n <= b@.len(),
            n == a@.len() || n == b@.len(),
            a@.len() <= usize::MAX,
            b@.len() <= usize::MAX,
            forall|m: int| 0 <= m < k ==> a@[m] == b@[m],
        decreases n - k,
    {
        if a[k] != b[k] {
            proof {
                lemma_bytes_lt_skip(a@, b@, k as int);
            }
            return a[k] < b[k];
        }
        k += 1;
    }
    proof {
        lemma_bytes_lt_skip(a@, b@, n as int);
        if a@.len() == b@.len() {
            assert(a@ =~= b@);
        } else {
            assert(a@ != b@);
        }
    }
    a.len() <= b.len()
}

/// With the first `k` bytes equal, the lexicographic order is decided by
/// what follows them.
proof fn lemma_bytes_lt_skip(a: Seq<u8>, b: Seq<u8>, k: int)
    requires
        0 <= k <= a.len(),
        k <= b.len(),
        forall|m: int| 0 <= m < k ==> a[m] == b[m],
    ensures
        bytes_lt(a, b) == bytes_lt(a.skip(k), b.skip(k)),
    decreases k,
{
    if k > 0 {
        let a1 = a.drop_first();
        let b1 = b.drop_first();
        assert forall|m: int| 0 <= m < k - 1 implies a1[m] == b1[m] by {
            assert(a1[m] == a[m + 1]);
            assert(b1[m] == b[m + 1]);
        }
        lemma_bytes_lt_skip(a1, b1, k - 1);
        assert(a1.skip(k - 1) =~= a.skip(k));
        assert(b1.skip(k - 1) =~= b.skip(k));
        assert(bytes_lt(a, b) == bytes_lt(a1, b1));
    } else {
        assert(a.skip(0) =~= a);
        assert(b.skip(0) =~= b);
    }
}

/// The position where `x` belongs in the sorted `v`: the index of the
/// first fragment whose name is not below `x`'s.
fn insert_position(x: &Fragment, v: &Vec<Fragment>) -> (j: usize)
    ensures
        j <= v@.len(),
        forall|m: int| 0 <= m < j ==> !bytes_le(x@.name, (#[trigger] v.deep_view()[m]).name),
        j < v@.len() ==> bytes_le(x@.name, v.deep_view()[j as int].name),
{
    let mut j: usize = 0;
    proof {
        assert(v@.len() == v.len());
    }
    while j < v.len()
        invariant
            j <= v@.len(),
            v@.len() <= usize::MAX,
            forall|m: int| 0 <= m < j ==> !bytes_le(x@.name, (#[trigger] v.deep_view()[m]).name),
        decreases v@.len() - j,
    {
        if bytes_le_exec(x.name.as_slice(), v[j].name.as_slice()) {
            return j;
        }
        j += 1;
    }
    j
}

/// Inserts `x` into the sorted `sorted` in front of the first fragment
/// whose name is not below `x`'s.
fn insert_fragment(x: Fragment, sorted: Vec<Fragment>) -> (r: Vec<Fragment>)
    ensures
        r.deep_view() == insert_sorted(x@, sorted.deep_view()),
{
    let mut v = sorted;
    let j = insert_position(&x, &v);
    proof {
        lemma_insert_at(x@, v.deep_view(), j as int);
    }
    let ghost pre = v.deep_view();
    v.insert(j, x);
    proof {
        assert(v.deep_view() =~= pre.subrange(0, j as int) + seq![x@] + pre.subrange(
            j as int,
            pre.len() as int,
        ));
    }
    v
}

/// Where the scan stops is where `insert_sorted` places the new entry.
proof fn lemma_insert_at(x: FragModel, s: Seq<FragModel>, j: int)
    requires
        0 <= j <= s.len(),
        forall|m: int| 0 <= m < j ==> !bytes_le(x.name, (#[trigger] s[m]).name),
        j < s.len() ==> bytes_le(x.name, s[j].name),
    ensures
        insert_sorted(x, s) == s.subrange(0, j) + seq![x] + s.subrange(j, s.len() as int),
    decreases s.len(),
{
    if s.len() == 0 {
        assert(insert_sorted(x, s) =~= s.subrange(0, 0) + seq![x] + s.subrange(0, 0));
    } else if j == 0 {
        assert(s.subrange(0, s.len() as int) =~= s);
        assert(seq![x] + s =~= s.subrange(0, 0) + seq![x] + s.subrange(0, s.len() as int));
    } else {
        let rest = s.drop_first();
        assert(!bytes_le(x.name, s[0].name));
        assert forall|m: int| 0 <= m < j - 1 implies !bytes_le(
            x.name,
            (#[trigger] rest[m]).name,
        ) by {
            assert(rest[m] == s[m + 1]);
        }
        lemma_insert_at(x, rest, j - 1);
        assert(rest.subrange(0, j - 1) =~= s.subrange(1, j));
        assert(rest.subrange(j - 1, rest.len() as int) =~= s.subrange(j, s.len() as int));
        assert(seq![s[0]] + (s.subrange(1, j) + seq![x] + s.subrange(j, s.len() as int))
            =~= s.subrange(0, j) + seq![x] + s.subrange(j, s.len() as int));
    }
}

/// Sorts fragments by name into the deterministic reassembly order.
pub fn sort_fragments(frags: Vec<Fragment>) -> (r: Vec<Fragment>)
    ensures
        r.deep_view() == sort_fragments_spec(frags.deep_view()),
{
    let mut rest = frags;
    let mut sorted: Vec<Fragment> = Vec::new();
    let ghost all = rest.deep_view();
    proof {
        assert(all.skip(rest@.len() as int) =~= Seq::<FragModel>::empty());
        assert(rest.deep_view() =~= all.subrange(0, rest@.len() as int));
    }
    while rest.len() > 0
        invariant
            rest@.len() <= all.len(),
            rest.deep_view() == all.subrange(0, rest@.len() as int),
            sorted.deep_view() == sort_fragments_spec(all.skip(rest@.len() as int)),
        decreases rest@.len(),
    {
        let ghost n = rest@.len() as int;
        let ghost prev = rest.deep_view();
        let x = match rest.pop() {
            Some(x) => x,
            None => {
                proof {
                    assert(false);
                }
                return sorted;
            },
        };
        proof {
            assert(x@ == prev[n - 1]);
            assert(x@ == all[n - 1]);
            assert(rest.deep_view() =~= all.subrange(0, n - 1));
            let suffix = all.skip(n - 1);
            assert(suffix[0] == all[n - 1]);
            assert(suffix.drop_first() =~= all.skip(n));
            assert(sort_fragments_spec(suffix) == insert_sorted(x@, sort_fragments_spec(all.skip(n))));
        }
        sorted = insert_fragment(x, sorted);
    }
    proof {
        assert(all.skip(0) =~= all);
    }
    sorted
}

/// Appends the bytes of `src` to `dst`.
pub fn append_bytes(dst: &mut Vec<u8>, src: &[u8])
    ensures
        final(dst)@ == old(dst)@ + src@,
{
    let mut k: usize = 0;
    proof {
        assert(src@.len() == src.len());
        assert(dst@ =~= old(dst)@ + src@.subrange(0, 0));
    }
    while k < src.len()
        invariant
            k <= src@.len(),
            src@.len() <= usize::MAX,
            dst@ == old(dst)@ + src@.subrange(0, k as int),
        decreases src@.len() - k,
    {
        dst.push(src[k]);
        proof {
            assert(dst@ =~= old(dst)@ + src@.subrange(0, k + 1));
        }
        k += 1;
    }
    proof {
        assert(src@.subrange(0, src@.len() as int) =~= src@);
    }
}

/// The reassembler's merge: orders the fragments by name and returns the
/// byte-for-byte concatenation of their contents in that order.
pub fn merge_fragments(frags: Vec<Fragment>) -> (r: Vec<u8>)
    ensures
        r@ == concat_contents(sort_fragments_spec(frags.deep_view())),
{
    let sorted = sort_fragments(frags);
    let ghost model = sorted.deep_view();
    let mut out: Vec<u8> = Vec::new();
    let mut i: usize = 0;
    proof {
        assert(sorted@.len() == sorted.len());
        assert(model.skip(0) =~= model);
    }
    while i < sorted.len()
        invariant
            i <= sorted@.len(),
            sorted@.len() <= usize::MAX,
            model == sorted.deep_view(),
            out@ + concat_contents(model.skip(i as int)) == concat_contents(model),
        decreases sorted@.len() - i,
    {
        let ghost suffix = model.skip(i as int);
        proof {
            assert(suffix[0] == model[i as int]);
            assert(suffix.drop_first() =~= model.skip(i + 1));
            assert(concat_contents(suffix) == model[i as int].content + concat_contents(
                model.skip(i + 1),
            ));
        }
        append_bytes(&mut out, sorted[i].content.as_slice());
        proof {
            assert(out@ + concat_contents(model.skip(i + 1)) =~= concat_contents(model));
        }
        i += 1;
    }
    proof {
        assert(model.skip(model.len() as int) =~= Seq::<FragModel>::empty());
        assert(out@ =~= concat_contents(model));
    }
    out
}

} // verus!
