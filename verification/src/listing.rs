//! Which directory entries are envelope files, and the order in which they
//! are consumed: paths sorted as `Path` orders them, component by component,
//! each component compared byte by byte.

use vstd::prelude::*;
use vstd::relations::{total_ordering, sorted_by};
use vstd::utf8::{encode_utf8, is_ascii_chars, is_ascii_chars_encode_utf8};
use crate::format::is_digit_char;
use crate::filename::{envelope_file_name, has_json_extension, is_json_name, lemma_envelope_file_name_shape, lemma_time_field_first_difference};

verus! {

broadcast use vstd::seq_lib::group_to_multiset_ensures;

/// One entry of a directory listing: its file name and whether it is a file.
#[derive(Debug, Clone, PartialEq, Eq)]
pub struct DirEntryInfo {
    pub name: Vec<u8>,
    pub is_file: bool,
}

/// An envelope file found under the channel directory: directly in it, or
/// in its `inbox` subdirectory.
#[derive(Debug, Clone, PartialEq, Eq)]
pub struct EnvelopePath {
    pub in_inbox: bool,
    pub name: Vec<u8>,
}

impl View for EnvelopePath {
    type V = (bool, Seq<u8>);

    open spec fn view(&self) -> (bool, Seq<u8>) {
        (self.in_inbox, self.name@)
    }
}

/// `inbox`
pub open spec fn inbox_component() -> Seq<u8> {
    seq![105u8, 110u8, 98u8, 111u8, 120u8]
}

/// Byte-wise lexicographic order; a prefix comes first.
pub open spec fn bytes_le(a: Seq<u8>, b: Seq<u8>) -> bool
    decreases a.len(),
{
    if a.len() == 0 {
        true
    } else if b.len() == 0 {
        false
    } else if a[0] != b[0] {
        a[0] < b[0]
    } else {
        bytes_le(a.drop_first(), b.drop_first())
    }
}

/// Lexicographic order of component lists, components compared by [`bytes_le`].
pub open spec fn components_le(a: Seq<Seq<u8>>, b: Seq<Seq<u8>>) -> bool
    decreases a.len(),
{
    if a.len() == 0 {
        true
    } else if b.len() == 0 {
        false
    } else if a[0] != b[0] {
        bytes_le(a[0], b[0])
    } else {
        components_le(a.drop_first(), b.drop_first())
    }
}

/// The components of an envelope path below the channel directory.
pub open spec fn components(p: (bool, Seq<u8>)) -> Seq<Seq<u8>> {
    if p.0 {
        seq![inbox_component(), p.1]
    } else {
        seq![p.1]
    }
}

/// The order of `PathBuf`s below one directory, as a relation.
pub open spec fn path_order() -> spec_fn((bool, Seq<u8>), (bool, Seq<u8>)) -> bool {
    |p: (bool, Seq<u8>), q: (bool, Seq<u8>)| path_le(p, q)
}

/// The order of `PathBuf`s below one directory.
pub open spec fn path_le(p: (bool, Seq<u8>), q: (bool, Seq<u8>)) -> bool {
    components_le(components(p), components(q))
}

/// Whether a listing entry is an envelope file: a file with extension `json`.
pub open spec fn is_envelope_entry(e: DirEntryInfo) -> bool {
    e.is_file && has_json_extension(e.name@)
}

/// The envelope files of one listing, in listing order.
pub open spec fn envelope_entries(entries: Seq<DirEntryInfo>, in_inbox: bool) -> Seq<(bool, Seq<u8>)>
    decreases entries.len(),
{
    if entries.len() == 0 {
        Seq::empty()
    } else {
        let rest = envelope_entries(entries.drop_last(), in_inbox);
        if is_envelope_entry(entries.last()) {
            rest.push((in_inbox, entries.last().name@))
        } else {
            rest
        }
    }
}

/// The views of a sequence of paths.
pub open spec fn path_views(s: Seq<EnvelopePath>) -> Seq<(bool, Seq<u8>)> {
    s.map_values(|p: EnvelopePath| p@)
}

/// The envelope paths of a channel directory and its inbox, in the order in
/// which they are consumed.
pub open spec fn sorted_envelope_paths(channel: Seq<DirEntryInfo>, inbox: Seq<DirEntryInfo>) -> Seq<(bool, Seq<u8>)> {
    (envelope_entries(channel, false) + envelope_entries(inbox, true)).sort_by(path_order())
}

proof fn lemma_bytes_le_reflexive(a: Seq<u8>)
    ensures
        bytes_le(a, a),
    decreases a.len(),
{
    if a.len() > 0 {
        lemma_bytes_le_reflexive(a.drop_first());
    }
}

proof fn lemma_bytes_le_antisymmetric(a: Seq<u8>, b: Seq<u8>)
    requires
        bytes_le(a, b),
        bytes_le(b, a),
    ensures
        a == b,
    decreases a.len(),
{
    if a.len() > 0 {
        lemma_bytes_le_antisymmetric(a.drop_first(), b.drop_first());
        assert(a =~= seq![a[0]] + a.drop_first());
        assert(b =~= seq![b[0]] + b.drop_first());
    } else {
        assert(b.len() == 0);
        assert(a =~= b);
    }
}

proof fn lemma_bytes_le_transitive(a: Seq<u8>, b: Seq<u8>, c: Seq<u8>)
    requires
        bytes_le(a, b),
        bytes_le(b, c),
    ensures
        bytes_le(a, c),
    decreases a.len(),
{
    if a.len() > 0 && b.len() > 0 && c.len() > 0 && a[0] == b[0] && b[0] == c[0] {
        lemma_bytes_le_transitive(a.drop_first(), b.drop_first(), c.drop_first());
    }
}

proof fn lemma_bytes_le_total(a: Seq<u8>, b: Seq<u8>)
    ensures
        bytes_le(a, b) || bytes_le(b, a),
    decreases a.len(),
{
    if a.len() > 0 && b.len() > 0 && a[0] == b[0] {
        lemma_bytes_le_total(a.drop_first(), b.drop_first());
    }
}

proof fn lemma_components_le_reflexive(a: Seq<Seq<u8>>)
    ensures
        components_le(a, a),
    decreases a.len(),
{
    if a.len() > 0 {
        lemma_components_le_reflexive(a.drop_first());
    }
}

proof fn lemma_components_le_antisymmetric(a: Seq<Seq<u8>>, b: Seq<Seq<u8>>)
    requires
        components_le(a, b),
        components_le(b, a),
    ensures
        a == b,
    decreases a.len(),
{
    if a.len() > 0 {
        if a[0] != b[0] {
            lemma_bytes_le_antisymmetric(a[0], b[0]);
        } else {
            lemma_components_le_antisymmetric(a.drop_first(), b.drop_first());
            assert(a =~= seq![a[0]] + a.drop_first());
            assert(b =~= seq![b[0]] + b.drop_first());
        }
    } else {
        assert(a =~= b);
    }
}

proof fn lemma_components_le_transitive(a: Seq<Seq<u8>>, b: Seq<Seq<u8>>, c: Seq<Seq<u8>>)
    requires
        components_le(a, b),
        components_le(b, c),
    ensures
        components_le(a, c),
    decreases a.len(),
{
    if a.len() > 0 && b.len() > 0 && c.len() > 0 {
        if a[0] == b[0] && b[0] == c[0] {
            lemma_components_le_transitive(a.drop_first(), b.drop_first(), c.drop_first());
        } else if a[0] == b[0] {
        } else if b[0] == c[0] {
        } else {
            lemma_bytes_le_transitive(a[0], b[0], c[0]);
            if a[0] == c[0] {
                lemma_bytes_le_antisymmetric(a[0], b[0]);
            }
        }
    }
}

proof fn lemma_components_le_total(a: Seq<Seq<u8>>, b: Seq<Seq<u8>>)
    ensures
        components_le(a, b) || components_le(b, a),
    decreases a.len(),
{
    if a.len() > 0 && b.len() > 0 {
        if a[0] == b[0] {
            lemma_components_le_total(a.drop_first(), b.drop_first());
        } else {
            lemma_bytes_le_total(a[0], b[0]);
        }
    }
}

/// The order of envelope paths is a total order.
pub proof fn lemma_path_le_total_ordering()
    ensures
        total_ordering(path_order()),
{
    let leq = |p: (bool, Seq<u8>), q: (bool, Seq<u8>)| path_le(p, q);
    assert forall|p: (bool, Seq<u8>)| #[trigger] leq(p, p) by {
        lemma_components_le_reflexive(components(p));
    }
    assert forall|p: (bool, Seq<u8>), q: (bool, Seq<u8>)| #[trigger] leq(p, q) && #[trigger] leq(q, p) implies p == q by {
        lemma_components_le_antisymmetric(components(p), components(q));
        if p.0 {
            assert(components(p)[1] == p.1);
            assert(components(q).len() == 2);
            assert(components(q)[1] == q.1);
        } else {
            assert(components(p)[0] == p.1);
            assert(components(q).len() == 1);
            assert(components(q)[0] == q.1);
        }
    }
    assert forall|p: (bool, Seq<u8>), q: (bool, Seq<u8>), r: (bool, Seq<u8>)| #[trigger] leq(p, q) && #[trigger] leq(q, r) implies leq(p, r) by {
        lemma_components_le_transitive(components(p), components(q), components(r));
    }
    assert forall|p: (bool, Seq<u8>), q: (bool, Seq<u8>)| #[trigger] leq(p, q) || #[trigger] leq(q, p) by {
        lemma_components_le_total(components(p), components(q));
    }
}

/// Tests [`bytes_le`].
pub fn bytes_less_eq(a: &Vec<u8>, b: &Vec<u8>) -> (r: bool)
    ensures
        r == bytes_le(a@, b@),
{
    let mut i: usize = 0;
    assert(a@.skip(0) =~= a@);
    assert(b@.skip(0) =~= b@);
    while i < a.len() && i < b.len() && a[i] == b[i]
        invariant
            i <= a@.len(),
            i <= b@.len(),
            bytes_le(a@, b@) == bytes_le(a@.skip(i as int), b@.skip(i as int)),
        decreases a@.len() - i,
    {
        proof {
            assert(a@.skip(i as int).drop_first() =~= a@.skip(i + 1));
            assert(b@.skip(i as int).drop_first() =~= b@.skip(i + 1));
        }
        i = i + 1;
    }
    if i == a.len() {
        true
    } else if i == b.len() {
        false
    } else {
        a[i] < b[i]
    }
}

/// A copy of a byte vector.
pub fn copy_bytes(v: &Vec<u8>) -> (r: Vec<u8>)
    ensures
        r@ == v@,
{
    let r = v.clone();
    assert(r@ =~= v@);
    r
}

/// A copy of an envelope path.
pub fn copy_path(p: &EnvelopePath) -> (r: EnvelopePath)
    ensures
        r@ == p@,
{
    EnvelopePath { in_inbox: p.in_inbox, name: copy_bytes(&p.name) }
}

fn inbox_name() -> (v: Vec<u8>)
    ensures
        v@ == inbox_component(),
{
    let v = vec![105u8, 110u8, 98u8, 111u8, 120u8];
    assert(v@ =~= inbox_component());
    v
}

proof fn lemma_components_le_single(x: Seq<u8>, y: Seq<u8>)
    ensures
        components_le(seq![x], seq![y]) == bytes_le(x, y),
{
    assert(seq![x][0] == x);
    assert(seq![y][0] == y);
    if x == y {
        lemma_bytes_le_reflexive(x);
        assert(seq![x].drop_first() =~= Seq::<Seq<u8>>::empty());
        assert(seq![y].drop_first() =~= Seq::<Seq<u8>>::empty());
        assert(components_le(Seq::<Seq<u8>>::empty(), Seq::<Seq<u8>>::empty()));
    }
}

proof fn lemma_path_le_cases(p: (bool, Seq<u8>), q: (bool, Seq<u8>))
    ensures
        p.0 == q.0 ==> path_le(p, q) == bytes_le(p.1, q.1),
        !p.0 && q.0 ==> path_le(p, q) == bytes_le(p.1, inbox_component()),
        p.0 && !q.0 ==> path_le(p, q) == (q.1 != inbox_component() && bytes_le(
            inbox_component(),
            q.1,
        )),
{
    let cp = components(p);
    let cq = components(q);
    lemma_components_le_single(p.1, q.1);
    if p.0 && q.0 {
        assert(cp.drop_first() =~= seq![p.1]);
        assert(cq.drop_first() =~= seq![q.1]);
    } else if !p.0 && q.0 {
        assert(cp[0] == p.1);
        assert(cq[0] == inbox_component());
        if p.1 == inbox_component() {
            lemma_bytes_le_reflexive(inbox_component());
            assert(cp.drop_first() =~= Seq::<Seq<u8>>::empty());
            assert(components_le(Seq::<Seq<u8>>::empty(), cq.drop_first()));
        }
    } else if p.0 && !q.0 {
        assert(cq[0] == q.1);
        assert(cp[0] == inbox_component());
        if q.1 == inbox_component() {
            assert(cq.drop_first() =~= Seq::<Seq<u8>>::empty());
            assert(cp.drop_first() =~= seq![p.1]);
            assert(!components_le(cp.drop_first(), cq.drop_first()));
        }
    }
}

/// Tests [`path_le`].
pub fn path_less_eq(p: &EnvelopePath, q: &EnvelopePath) -> (r: bool)
    ensures
        r == path_le(p@, q@),
{
    proof {
        lemma_path_le_cases(p@, q@);
    }
    if p.in_inbox == q.in_inbox {
        bytes_less_eq(&p.name, &q.name)
    } else if !p.in_inbox {
        let inbox = inbox_name();
        bytes_less_eq(&p.name, &inbox)
    } else {
        let inbox = inbox_name();
        let same = bytes_less_eq(&inbox, &q.name) && bytes_less_eq(&q.name, &inbox);
        proof {
            if bytes_le(inbox_component(), q.name@) && bytes_le(q.name@, inbox_component()) {
                lemma_bytes_le_antisymmetric(inbox_component(), q.name@);
            }
            if q.name@ == inbox_component() {
                lemma_bytes_le_reflexive(inbox_component());
            }
        }
        !same && bytes_less_eq(&inbox, &q.name)
    }
}

fn collect_envelope_entries(entries: &Vec<DirEntryInfo>, in_inbox: bool, out: &mut Vec<EnvelopePath>)
    ensures
        path_views(final(out)@) == path_views(old(out)@) + envelope_entries(entries@, in_inbox),
{
    let ghost start = path_views(out@);
    let mut i: usize = 0;
    assert(entries@.take(0) =~= Seq::<DirEntryInfo>::empty());
    assert(start + Seq::<(bool, Seq<u8>)>::empty() =~= start);
    while i < entries.len()
        invariant
            i <= entries@.len(),
            path_views(out@) == start + envelope_entries(entries@.take(i as int), in_inbox),
        decreases entries@.len() - i,
    {
        proof {
            assert(entries@.take(i + 1).drop_last() =~= entries@.take(i as int));
            assert(entries@.take(i + 1).last() == entries@[i as int]);
        }
        if entries[i].is_file && is_json_name(&entries[i].name) {
            let p = EnvelopePath { in_inbox, name: copy_bytes(&entries[i].name) };
            let ghost before = out@;
            out.push(p);
            proof {
                assert(path_views(out@) =~= path_views(before).push(p@));
            }
        }
        i = i + 1;
    }
    assert(entries@.take(entries@.len() as int) =~= entries@);
}

/// Inserts `x` into the sorted `s` after every element that does not follow it.
fn insert_sorted(s: &mut Vec<EnvelopePath>, x: EnvelopePath)
    requires
        sorted_by(path_views(old(s)@), path_order()),
    ensures
        sorted_by(path_views(final(s)@), path_order()),
        path_views(final(s)@).to_multiset() == path_views(old(s)@).to_multiset().insert(x@),
{
    let ghost leq = path_order();
    let ghost v = path_views(s@);
    proof {
        lemma_path_le_total_ordering();
    }
    let mut k: usize = 0;
    while k < s.len() && path_less_eq(&s[k], &x)
        invariant
            k <= s@.len(),
            v == path_views(s@),
            forall|j: int| 0 <= j < k ==> path_le(#[trigger] v[j], x@),
        decreases s@.len() - k,
    {
        k = k + 1;
    }
    let ghost xv = x@;
    s.insert(k, x);
    proof {
        let w = path_views(s@);
        assert(w =~= v.insert(k as int, xv));
        if k < v.len() {
            assert(!path_le(v[k as int], xv));
            assert(leq(xv, v[k as int]) || leq(v[k as int], xv));
        }
        assert forall|i: int, j: int| 0 <= i < j < w.len() implies #[trigger] leq(w[i], w[j]) by {
            if j < k {
                assert(leq(v[i], v[j]));
            } else if j == k {
                assert(path_le(v[i], xv));
            } else if i == k {
                if j - 1 > k {
                    assert(leq(v[k as int], v[j - 1]));
                }
                assert(leq(xv, v[k as int]));
            } else if i < k {
                assert(leq(v[i], v[j - 1]));
            } else {
                assert(leq(v[i - 1], v[j - 1]));
            }
        }
        vstd::seq_lib::to_multiset_insert(v, k as int, xv);
    }
}

/// The envelope files of the channel directory and of its inbox, sorted as
/// paths: given the two directory listings, it keeps the files whose
/// extension is `json` and orders them.
pub fn envelope_paths(channel_entries: &Vec<DirEntryInfo>, inbox_entries: &Vec<DirEntryInfo>) -> (paths: Vec<EnvelopePath>)
    ensures
        path_views(paths@) == sorted_envelope_paths(channel_entries@, inbox_entries@),
{
    let ghost leq = path_order();
    let mut candidates: Vec<EnvelopePath> = Vec::new();
    assert(path_views(candidates@) =~= Seq::<(bool, Seq<u8>)>::empty());
    collect_envelope_entries(channel_entries, false, &mut candidates);
    collect_envelope_entries(inbox_entries, true, &mut candidates);
    let ghost all = path_views(candidates@);
    assert(all =~= envelope_entries(channel_entries@, false) + envelope_entries(inbox_entries@, true));
    let mut sorted: Vec<EnvelopePath> = Vec::new();
    let mut i: usize = 0;
    assert(path_views(sorted@) =~= Seq::<(bool, Seq<u8>)>::empty());
    assert(all.take(0) =~= Seq::<(bool, Seq<u8>)>::empty());
    while i < candidates.len()
        invariant
            i <= candidates@.len(),
            all == path_views(candidates@),
            sorted_by(path_views(sorted@), path_order()),
            path_views(sorted@).to_multiset() == all.take(i as int).to_multiset(),
        decreases candidates@.len() - i,
    {
        let x = copy_path(&candidates[i]);
        insert_sorted(&mut sorted, x);
        proof {
            assert(all.take(i + 1) =~= all.take(i as int).push(all[i as int]));
        }
        i = i + 1;
    }
    proof {
        assert(all.take(all.len() as int) =~= all);
        lemma_path_le_total_ordering();
        all.lemma_sort_by_ensures(leq);
        vstd::seq_lib::lemma_sorted_unique(path_views(sorted@), all.sort_by(leq), leq);
    }
    sorted
}

proof fn lemma_bytes_le_first_difference(a: Seq<u8>, b: Seq<u8>, k: int)
    requires
        0 <= k <= a.len(),
        k <= b.len(),
        a.take(k) == b.take(k),
        (k < a.len() && k < b.len() && a[k] < b[k]) || (k == a.len() && k < b.len()),
    ensures
        bytes_le(a, b),
        !bytes_le(b, a),
    decreases k,
{
    if k > 0 {
        assert(a[0] == a.take(k)[0]);
        assert(b[0] == b.take(k)[0]);
        assert(a.drop_first().take(k - 1) =~= a.take(k).drop_first());
        assert(b.drop_first().take(k - 1) =~= b.take(k).drop_first());
        lemma_bytes_le_first_difference(a.drop_first(), b.drop_first(), k - 1);
    }
}

/// Envelope files of one directory are consumed in the order in which std
/// orders their names' bytes: where two names first differ, the name with the
/// smaller byte comes first, and a name that is a proper prefix of another
/// comes before it.
pub proof fn lemma_path_order_is_byte_order(in_inbox: bool, a: Seq<u8>, b: Seq<u8>, k: int)
    requires
        0 <= k <= a.len(),
        k <= b.len(),
        a.take(k) == b.take(k),
        (k < a.len() && k < b.len() && a[k] < b[k]) || (k == a.len() && k < b.len()),
    ensures
        path_le((in_inbox, a), (in_inbox, b)),
        !path_le((in_inbox, b), (in_inbox, a)),
{
    lemma_path_le_cases((in_inbox, a), (in_inbox, b));
    lemma_path_le_cases((in_inbox, b), (in_inbox, a));
    lemma_bytes_le_first_difference(a, b, k);
}

proof fn lemma_encode_utf8_append(a: Seq<char>, b: Seq<char>)
    ensures
        encode_utf8(a + b) == encode_utf8(a) + encode_utf8(b),
    decreases a.len(),
{
    if a.len() == 0 {
        assert(a + b =~= b);
        assert(encode_utf8(a) + encode_utf8(b) =~= encode_utf8(b));
    } else {
        assert((a + b).drop_first() =~= a.drop_first() + b);
        assert((a + b)[0] == a[0]);
        lemma_encode_utf8_append(a.drop_first(), b);
        assert(encode_utf8(a + b) =~= encode_utf8(a) + encode_utf8(b));
    }
}

/// Envelopes are consumed oldest first: of two envelope files in one
/// directory whose names were built at different times after the epoch, the
/// one built earlier comes first in consumption order, whatever the other
/// fields of the names hold.
pub proof fn lemma_consumed_oldest_first(
    in_inbox: bool,
    earlier: int,
    later: int,
    pid_a: u32,
    hex_a: u32,
    seq_a: u64,
    from_a: Seq<char>,
    pid_b: u32,
    hex_b: u32,
    seq_b: u64,
    from_b: Seq<char>,
)
    requires
        0 <= earlier < later <= i64::MAX,
    ensures
        ({
            let a = encode_utf8(envelope_file_name(earlier, pid_a as nat, hex_a as nat, seq_a as nat, from_a));
            let b = encode_utf8(envelope_file_name(later, pid_b as nat, hex_b as nat, seq_b as nat, from_b));
            path_le((in_inbox, a), (in_inbox, b)) && !path_le((in_inbox, b), (in_inbox, a))
        }),
{
    let x = envelope_file_name(earlier, pid_a as nat, hex_a as nat, seq_a as nat, from_a);
    let y = envelope_file_name(later, pid_b as nat, hex_b as nat, seq_b as nat, from_b);
    lemma_envelope_file_name_shape(earlier, pid_a, hex_a, seq_a, from_a);
    lemma_envelope_file_name_shape(later, pid_b, hex_b, seq_b, from_b);
    let k = lemma_time_field_first_difference(earlier, later, pid_a, hex_a, seq_a, from_a, pid_b, hex_b, seq_b, from_b);
    let px = x.take(20);
    let py = y.take(20);
    assert(is_ascii_chars(px)) by {
        assert forall|i: int| 0 <= i < px.len() implies '\0' <= #[trigger] px[i] <= '\u{7f}' by {
            assert(is_digit_char(x[i]));
        }
    }
    assert(is_ascii_chars(py)) by {
        assert forall|i: int| 0 <= i < py.len() implies '\0' <= #[trigger] py[i] <= '\u{7f}' by {
            assert(is_digit_char(y[i]));
        }
    }
    is_ascii_chars_encode_utf8(px);
    is_ascii_chars_encode_utf8(py);
    assert(x =~= px + x.skip(20));
    assert(y =~= py + y.skip(20));
    lemma_encode_utf8_append(px, x.skip(20));
    lemma_encode_utf8_append(py, y.skip(20));
    let a = encode_utf8(x);
    let b = encode_utf8(y);
    assert(a[k] == encode_utf8(px)[k]);
    assert(b[k] == encode_utf8(py)[k]);
    assert(px[k] == x[k]);
    assert(py[k] == y[k]);
    assert(a.take(k) =~= b.take(k)) by {
        assert forall|i: int| 0 <= i < k implies #[trigger] a.take(k)[i] == b.take(k)[i] by {
            assert(a[i] == encode_utf8(px)[i]);
            assert(b[i] == encode_utf8(py)[i]);
            assert(px[i] == x.take(k)[i]);
            assert(py[i] == y.take(k)[i]);
        }
    }
    lemma_path_order_is_byte_order(in_inbox, a, b, k);
}

} // verus!
