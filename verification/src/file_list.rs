//! The listing of the file dialog: from the entries of a directory, the
//! folders in name order and the files the dialog shows, newest names
//! first, both compared without regard to case.
use crate::app::{ends_with, lowercase, spec_filters, str_ends_with, to_lowercase, DialogMode, FileDialog};
use vstd::prelude::*;
use vstd::string::{StrSliceExecFns, StringExecFns};

verus! {

/// `a` comes before `b` or equals it, code point by code point (the order
/// of strings, which UTF-8 keeps byte by byte).
pub open spec fn text_le(a: Seq<char>, b: Seq<char>) -> bool
    decreases a.len(),
{
    if a.len() == 0 {
        true
    } else if b.len() == 0 {
        false
    } else if a[0] != b[0] {
        (a[0] as u32) < (b[0] as u32)
    } else {
        text_le(a.drop_first(), b.drop_first())
    }
}

proof fn lemma_le_total(a: Seq<char>, b: Seq<char>)
    ensures
        text_le(a, b) || text_le(b, a),
    decreases a.len(),
{
    if a.len() > 0 && b.len() > 0 {
        if a[0] == b[0] {
            lemma_le_total(a.drop_first(), b.drop_first());
        } else {
            vstd::utf8::char_u32_cast(a[0], a[0] as u32);
            vstd::utf8::char_u32_cast(b[0], b[0] as u32);
            assert((a[0] as u32) != (b[0] as u32));
        }
    }
}

proof fn lemma_le_trans(a: Seq<char>, b: Seq<char>, c: Seq<char>)
    requires
        text_le(a, b),
        text_le(b, c),
    ensures
        text_le(a, c),
    decreases a.len(),
{
    if a.len() > 0 && b.len() > 0 && c.len() > 0 && a[0] == b[0] && b[0] == c[0] {
        lemma_le_trans(a.drop_first(), b.drop_first(), c.drop_first());
    }
}

/// The bytes of `s` in UTF-8.
pub open spec fn utf8_len(s: Seq<char>) -> nat
    decreases s.len(),
{
    if s.len() == 0 {
        0
    } else {
        let c = s.last() as u32;
        utf8_len(s.drop_last()) + if c < 0x80 {
            1nat
        } else if c < 0x800 {
            2nat
        } else if c < 0x10000 {
            3nat
        } else {
            4nat
        }
    }
}

/// A name that does not start with a dot (hidden entries are not listed).
pub open spec fn visible(name: Seq<char>) -> bool {
    !(name.len() > 0 && name[0] == '.')
}

/// A file the dialog in `mode` lists: its name, in lower case, ends with a
/// dot and one of the mode's extensions.
pub open spec fn shown_file(name: Seq<char>, mode: DialogMode) -> bool {
    exists|k: int| 0 <= k < spec_filters(mode).len() && ends_with(lowercase(name), "."@ + #[trigger] spec_filters(mode)[k])
}

/// The folders of a listing, in the listing's order.
pub open spec fn folders(l: Seq<(Seq<char>, bool)>) -> Seq<Seq<char>>
    decreases l.len(),
{
    if l.len() == 0 {
        Seq::empty()
    } else {
        let rest = folders(l.drop_last());
        let e = l.last();
        if visible(e.0) && e.1 {
            rest.push(e.0)
        } else {
            rest
        }
    }
}

/// The files of a listing that the dialog shows, in the listing's order.
pub open spec fn shown_files(l: Seq<(Seq<char>, bool)>, mode: DialogMode) -> Seq<Seq<char>>
    decreases l.len(),
{
    if l.len() == 0 {
        Seq::empty()
    } else {
        let rest = shown_files(l.drop_last(), mode);
        let e = l.last();
        if visible(e.0) && !e.1 && shown_file(e.0, mode) {
            rest.push(e.0)
        } else {
            rest
        }
    }
}

/// `a` may come before `b`: in name order ignoring case, or in the reverse
/// order when `desc`.
pub open spec fn in_order(a: Seq<char>, b: Seq<char>, desc: bool) -> bool {
    if desc {
        text_le(lowercase(b), lowercase(a))
    } else {
        text_le(lowercase(a), lowercase(b))
    }
}

/// `s` is in order.
pub open spec fn sorted_names(s: Seq<Seq<char>>, desc: bool) -> bool {
    forall|i: int, j: int| 0 <= i < j < s.len() ==> in_order(#[trigger] s[i], #[trigger] s[j], desc)
}

/// The entries of a directory listing as the dialog shows them.
pub open spec fn listed_as(names: Seq<Seq<char>>, dir: bool) -> Seq<(Seq<char>, bool)> {
    Seq::new(names.len(), |i: int| (names[i], dir))
}

pub open spec fn entries_view(v: Seq<(String, bool)>) -> Seq<(Seq<char>, bool)> {
    Seq::new(v.len(), |i: int| (v[i].0@, v[i].1))
}

/// The code points of `s` counted in UTF-8 bytes.
fn utf8_length(s: &str) -> (n: usize)
    ensures
        n == utf8_len(s@) || (n == usize::MAX && utf8_len(s@) >= usize::MAX),
{
    let k = s.unicode_len();
    let mut n: usize = 0;
    let mut i: usize = 0;
    while i < k
        invariant
            k == s@.len(),
            i <= k,
            n == utf8_len(s@.subrange(0, i as int)) || (n == usize::MAX && utf8_len(s@.subrange(0, i as int))
                >= usize::MAX),
        decreases k - i,
    {
        let c = s.get_char(i) as u32;
        let b: usize = if c < 0x80 {
            1
        } else if c < 0x800 {
            2
        } else if c < 0x10000 {
            3
        } else {
            4
        };
        assert(s@.subrange(0, i + 1).drop_last() =~= s@.subrange(0, i as int));
        n = if n > usize::MAX - b {
            usize::MAX
        } else {
            n + b
        };
        i = i + 1;
    }
    assert(s@.subrange(0, k as int) =~= s@);
    n
}

fn text_le_exec(a: &str, b: &str) -> (r: bool)
    ensures
        r == text_le(a@, b@),
{
    let n = a.unicode_len();
    let m = b.unicode_len();
    let mut i: usize = 0;
    assert(a@.subrange(0, n as int) =~= a@);
    assert(b@.subrange(0, m as int) =~= b@);
    while i < n && i < m && a.get_char(i) == b.get_char(i)
        invariant
            n == a@.len(),
            m == b@.len(),
            i <= n,
            i <= m,
            text_le(a@, b@) == text_le(a@.subrange(i as int, n as int), b@.subrange(i as int, m as int)),
        decreases n - i,
    {
        assert(a@.subrange(i as int, n as int).drop_first() =~= a@.subrange(i + 1, n as int));
        assert(b@.subrange(i as int, m as int).drop_first() =~= b@.subrange(i + 1, m as int));
        i = i + 1;
    }
    if i == n {
        return true;
    }
    if i == m {
        return false;
    }
    (a.get_char(i) as u32) < (b.get_char(i) as u32)
}

fn keys_in_order(a: &str, b: &str, desc: bool) -> (r: bool)
    ensures
        r == if desc {
            text_le(b@, a@)
        } else {
            text_le(a@, b@)
        },
{
    if desc {
        text_le_exec(b, a)
    } else {
        text_le_exec(a, b)
    }
}

/// The names of `s` whose lower case is `k`, in their order in `s`.
pub open spec fn keyed(s: Seq<Seq<char>>, k: Seq<char>) -> Seq<Seq<char>>
    decreases s.len(),
{
    if s.len() == 0 {
        Seq::empty()
    } else if lowercase(s.last()) == k {
        keyed(s.drop_last(), k).push(s.last())
    } else {
        keyed(s.drop_last(), k)
    }
}

proof fn lemma_keyed_concat(a: Seq<Seq<char>>, b: Seq<Seq<char>>, k: Seq<char>)
    ensures
        keyed(a + b, k) == keyed(a, k) + keyed(b, k),
    decreases b.len(),
{
    if b.len() == 0 {
        assert(a + b =~= a);
        assert(keyed(a, k) + keyed(b, k) =~= keyed(a, k));
    } else {
        lemma_keyed_concat(a, b.drop_last(), k);
        assert((a + b).drop_last() =~= a + b.drop_last());
        assert((a + b).last() == b.last());
        if lowercase(b.last()) == k {
            assert(keyed(a, k) + keyed(b.drop_last(), k).push(b.last()) =~= (keyed(a, k) + keyed(
                b.drop_last(),
                k,
            )).push(b.last()));
        }
    }
}

proof fn lemma_keyed_none(s: Seq<Seq<char>>, k: Seq<char>)
    requires
        forall|j: int| 0 <= j < s.len() ==> lowercase(#[trigger] s[j]) != k,
    ensures
        keyed(s, k) == Seq::<Seq<char>>::empty(),
    decreases s.len(),
{
    if s.len() > 0 {
        assert(lowercase(s[s.len() - 1]) != k);
        lemma_keyed_none(s.drop_last(), k);
    }
}

/// Putting `x` at `p` keeps the names of each lower case in order, when no
/// name after `p` has the lower case of `x`.
proof fn lemma_keyed_insert(s: Seq<Seq<char>>, p: int, x: Seq<char>, k: Seq<char>)
    requires
        0 <= p <= s.len(),
        forall|j: int| p <= j < s.len() ==> lowercase(#[trigger] s[j]) != lowercase(x),
    ensures
        keyed(s.insert(p, x), k) == if lowercase(x) == k {
            keyed(s, k).push(x)
        } else {
            keyed(s, k)
        },
{
    let a = s.take(p);
    let b = s.skip(p);
    assert(s =~= a + b);
    assert(s.insert(p, x) =~= a + seq![x] + b);
    lemma_keyed_concat(a, b, k);
    lemma_keyed_concat(a + seq![x], b, k);
    lemma_keyed_concat(a, seq![x], k);
    assert(seq![x].drop_last() =~= Seq::<Seq<char>>::empty());
    assert(seq![x].last() == x);
    assert(keyed(Seq::<Seq<char>>::empty(), k) =~= Seq::<Seq<char>>::empty());
    if lowercase(x) == k {
        assert(keyed(seq![x], k) =~= seq![x]);
    } else {
        assert(keyed(seq![x], k) =~= Seq::<Seq<char>>::empty());
    }
    if lowercase(x) == k {
        assert forall|j: int| 0 <= j < b.len() implies lowercase(#[trigger] b[j]) != k by {
            assert(b[j] == s[p + j]);
        }
        lemma_keyed_none(b, k);
        assert(keyed(a, k) + keyed(b, k) =~= keyed(a, k));
        assert(keyed(a, k) + seq![x] + keyed(b, k) =~= keyed(a, k).push(x));
    } else {
        assert(keyed(a, k) + Seq::<Seq<char>>::empty() =~= keyed(a, k));
    }
}

/// The second parts of pairs of strings.
pub open spec fn second_names(v: Seq<(String, String)>) -> Seq<Seq<char>> {
    Seq::new(v.len(), |i: int| v[i].1@)
}

/// Sorts `v`, pairs of a name in lower case and the name, by the first,
/// keeping the order of equal ones (see `keyed`); in reverse when `desc`.
fn sort_by_key(v: Vec<(String, String)>, desc: bool) -> (out: Vec<(String, String)>)
    requires
        forall|i: int| 0 <= i < v@.len() ==> (#[trigger] v@[i]).0@ == lowercase(v@[i].1@),
    ensures
        out@.len() == v@.len(),
        Seq::new(out@.len(), |i: int| out@[i].1@).to_multiset() == Seq::new(v@.len(), |i: int| v@[i].1@).to_multiset(),
        sorted_names(Seq::new(out@.len(), |i: int| out@[i].1@), desc),
        forall|k: Seq<char>|
            #[trigger] keyed(second_names(out@), k) == keyed(
                Seq::new(v@.len(), |i: int| v@[i].1@),
                k,
            ),
{
    let ghost names_in = Seq::new(v@.len(), |i: int| v@[i].1@);
    let mut out: Vec<(String, String)> = Vec::new();
    let n = v.len();
    let mut src = v;
    let mut taken: Vec<(String, String)> = Vec::new();
    let ghost v0 = src@;
    let mut i: usize = 0;
    assert(Seq::new(out@.len(), |k: int| out@[k].1@) =~= Seq::new(0 as nat, |k: int| v0[k].1@));
    while i < n
        invariant
            n == v0.len(),
            i <= n,
            src@ == v0,
            forall|k: int| 0 <= k < v0.len() ==> (#[trigger] v0[k]).0@ == lowercase(v0[k].1@),
            forall|k: int| 0 <= k < out@.len() ==> (#[trigger] out@[k]).0@ == lowercase(out@[k].1@),
            out@.len() == i,
            Seq::new(out@.len(), |k: int| out@[k].1@).to_multiset() == Seq::new(i as nat, |k: int| v0[k].1@).to_multiset(),
            sorted_names(Seq::new(out@.len(), |k: int| out@[k].1@), desc),
            forall|kk: Seq<char>|
                #[trigger] keyed(second_names(out@), kk) == keyed(
                    Seq::new(i as nat, |k: int| v0[k].1@),
                    kk,
                ),
        decreases n - i,
    {
        let key = src[i].0.clone();
        let name = src[i].1.clone();
        let mut p = out.len();
        while p > 0 && !keys_in_order(out[p - 1].0.as_str(), key.as_str(), desc)
            invariant
                p <= out@.len(),
                key@ == lowercase(name@),
                forall|k: int| 0 <= k < out@.len() ==> (#[trigger] out@[k]).0@ == lowercase(out@[k].1@),
                forall|k: int| p <= k < out@.len() ==> !in_order(#[trigger] out@[k].1@, name@, desc),
            decreases p,
        {
            p = p - 1;
        }
        let ghost before = Seq::new(out@.len(), |k: int| out@[k].1@);
        let ghost old_out = out@;
        assert(before == second_names(old_out));
        proof {
            let s = before;
            assert forall|k: int| 0 <= k < p implies in_order(#[trigger] s[k], name@, desc) by {
                if p > 0 {
                    assert(in_order(s[p - 1], name@, desc));
                    if k < p - 1 {
                        assert(in_order(s[k], s[p - 1], desc));
                        if desc {
                            lemma_le_trans(lowercase(name@), lowercase(s[p - 1]), lowercase(s[k]));
                        } else {
                            lemma_le_trans(lowercase(s[k]), lowercase(s[p - 1]), lowercase(name@));
                        }
                    }
                }
            }
            assert forall|k: int| p <= k < s.len() implies in_order(name@, #[trigger] s[k], desc) by {
                assert(!in_order(s[k], name@, desc));
                lemma_le_total(lowercase(s[k]), lowercase(name@));
            }
        }
        out.insert(p, (key, name));
        proof {
            let s2 = Seq::new(out@.len(), |k: int| out@[k].1@);
            assert(s2 =~= before.insert(p as int, name@));
            vstd::seq_lib::to_multiset_insert(before, p as int, name@);
            let vs1 = Seq::new((i + 1) as nat, |k: int| v0[k].1@);
            let vs0 = Seq::new(i as nat, |k: int| v0[k].1@);
            assert(vs1 =~= vs0.push(name@));
            vstd::seq_lib::to_multiset_build(vs0, name@);
            assert(before.insert(p as int, name@).to_multiset() =~= before.to_multiset().insert(name@));
            assert forall|j: int| p <= j < before.len() implies lowercase(#[trigger] before[j]) != lowercase(name@) by {
                assert(!in_order(before[j], name@, desc));
                lemma_le_total(lowercase(name@), lowercase(name@));
            }
            assert(vs1.drop_last() =~= vs0);
            assert(vs1.last() == name@);
            assert(second_names(out@) == s2);
            assert forall|kk: Seq<char>| #[trigger] keyed(second_names(out@), kk) == keyed(vs1, kk) by {
                lemma_keyed_insert(before, p as int, name@, kk);
                assert(keyed(second_names(old_out), kk) == keyed(vs0, kk));
            }
            assert(sorted_names(s2, desc)) by {
                assert forall|a: int, b: int| 0 <= a < b < s2.len() implies in_order(#[trigger] s2[a], #[trigger] s2[b], desc) by {
                    if a < p && b < p {
                        assert(s2[a] == before[a] && s2[b] == before[b]);
                    } else if a < p && b == p {
                    } else if a < p && b > p {
                        assert(s2[b] == before[b - 1]);
                    } else if a == p {
                        assert(s2[b] == before[b - 1]);
                    } else {
                        assert(s2[a] == before[a - 1] && s2[b] == before[b - 1]);
                    }
                }
            }
        }
        i = i + 1;
    }
    proof {
        assert(Seq::new(n as nat, |k: int| v0[k].1@) =~= names_in);
    }
    out
}

impl FileDialog {
    /// Fills the listing from the entries of the directory, `(name, is a
    /// folder)` as the directory gives them: `..` first when the path is
    /// longer than three bytes, then the folders in name order, then the
    /// files the mode shows in reverse name order, names compared in lower
    /// case, names equal in lower case in the order of the listing; hidden
    /// entries are left out. The scroll goes back to the top.
    pub fn fill_entries(&mut self, listing: Vec<(String, bool)>)
        ensures
            final(self).mode == old(self).mode,
            final(self).path == old(self).path,
            final(self).file == old(self).file,
            final(self).result == old(self).result,
            final(self).scroll == 0,
            ({
                let l = entries_view(listing@);
                let up = if utf8_len(old(self).path@) > 3 {
                    seq![(".."@, true)]
                } else {
                    Seq::empty()
                };
                exists|ds: Seq<Seq<char>>, fs: Seq<Seq<char>>|
                    #![trigger sorted_names(ds, false), sorted_names(fs, true)]
                    {
                        &&& ds.to_multiset() == folders(l).to_multiset()
                        &&& sorted_names(ds, false)
                        &&& fs.to_multiset() == shown_files(l, old(self).mode).to_multiset()
                        &&& sorted_names(fs, true)
                        &&& forall|k: Seq<char>| #[trigger] keyed(ds, k) == keyed(folders(l), k)
                        &&& forall|k: Seq<char>| #[trigger] keyed(fs, k) == keyed(shown_files(l, old(self).mode), k)
                        &&& entries_view(final(self).entries@) == up + listed_as(ds, true) + listed_as(fs, false)
                    }
            }),
    {
        let ghost l = entries_view(listing@);
        let mode = self.mode;
        let filters = mode.filters();
        proof {
            assert(filters@.map_values(|s: &'static str| crate::app::str_view(s)).len() == filters@.len());
            assert forall|k: int| 0 <= k < filters@.len() implies (#[trigger] filters@[k])@ == spec_filters(mode)[k] by {
                assert(filters@.map_values(|s: &'static str| crate::app::str_view(s))[k] == crate::app::str_view(
                    filters@[k],
                ));
            }
        }
        let mut dirs: Vec<(String, String)> = Vec::new();
        let mut files: Vec<(String, String)> = Vec::new();
        let mut i: usize = 0;
        while i < listing.len()
            invariant
                i <= listing@.len(),
                l == entries_view(listing@),
                mode == self.mode,
                filters@.len() == spec_filters(mode).len(),
                forall|k: int| 0 <= k < filters@.len() ==> (#[trigger] filters@[k])@ == spec_filters(mode)[k],
                Seq::new(dirs@.len(), |k: int| dirs@[k].1@) == folders(l.subrange(0, i as int)),
                Seq::new(files@.len(), |k: int| files@[k].1@) == shown_files(l.subrange(0, i as int), mode),
                forall|k: int| 0 <= k < dirs@.len() ==> (#[trigger] dirs@[k]).0@ == lowercase(dirs@[k].1@),
                forall|k: int| 0 <= k < files@.len() ==> (#[trigger] files@[k]).0@ == lowercase(files@[k].1@),
            decreases listing@.len() - i,
        {
            let name = &listing[i].0;
            let is_dir = listing[i].1;
            let ghost pre = l.subrange(0, i as int);
            let ghost cur = l.subrange(0, i + 1);
            assert(cur.drop_last() =~= pre);
            assert(cur.last() == (name@, is_dir));
            let hidden = name.unicode_len() > 0 && name.get_char(0) == '.';
            if !hidden {
                let low = to_lowercase(name.as_str());
                if is_dir {
                    let ghost before = Seq::new(dirs@.len(), |k: int| dirs@[k].1@);
                    dirs.push((low, name.clone()));
                    assert(Seq::new(dirs@.len(), |k: int| dirs@[k].1@) =~= before.push(name@));
                } else {
                    let mut shown = false;
                    let mut k: usize = 0;
                    while k < filters.len()
                        invariant
                            k <= filters@.len(),
                            filters@.len() == spec_filters(mode).len(),
                            forall|j: int| 0 <= j < filters@.len() ==> (#[trigger] filters@[j])@ == spec_filters(mode)[j],
                            low@ == lowercase(name@),
                            shown == exists|j: int|
                                0 <= j < k && ends_with(lowercase(name@), "."@ + #[trigger] spec_filters(mode)[j]),
                        decreases filters@.len() - k,
                    {
                        let mut ext = ".".to_owned();
                        ext.append(filters[k]);
                        if str_ends_with(low.as_str(), ext.as_str()) {
                            shown = true;
                        }
                        k = k + 1;
                    }
                    if shown {
                        let ghost before = Seq::new(files@.len(), |k: int| files@[k].1@);
                        files.push((low, name.clone()));
                        assert(Seq::new(files@.len(), |k: int| files@[k].1@) =~= before.push(name@));
                    }
                }
            }
            i = i + 1;
        }
        assert(l.subrange(0, listing@.len() as int) =~= l);
        let ghost dnames = Seq::new(dirs@.len(), |k: int| dirs@[k].1@);
        let ghost fnames = Seq::new(files@.len(), |k: int| files@[k].1@);
        assert(dnames == second_names(dirs@));
        assert(fnames == second_names(files@));
        let dirs = sort_by_key(dirs, false);
        let files = sort_by_key(files, true);
        assert(second_names(dirs@) == Seq::new(dirs@.len(), |k: int| dirs@[k].1@));
        assert(second_names(files@) == Seq::new(files@.len(), |k: int| files@[k].1@));
        let mut entries: Vec<(String, bool)> = Vec::new();
        if utf8_length(self.path.as_str()) > 3 {
            entries.push(("..".to_owned(), true));
        }
        let ghost up = entries_view(entries@);
        let mut j: usize = 0;
        assert(listed_as(Seq::new(0 as nat, |k: int| dirs@[k].1@), true) =~= Seq::<(Seq<char>, bool)>::empty());
        assert(up + Seq::<(Seq<char>, bool)>::empty() =~= up);
        while j < dirs.len()
            invariant
                j <= dirs@.len(),
                entries_view(entries@) == up + listed_as(Seq::new(j as nat, |k: int| dirs@[k].1@), true),
            decreases dirs@.len() - j,
        {
            let ghost e0 = entries@;
            let x = dirs[j].1.clone();
            entries.push((x, true));
            assert(entries_view(entries@) =~= entries_view(e0).push((dirs@[j as int].1@, true)));
            assert(listed_as(Seq::new((j + 1) as nat, |k: int| dirs@[k].1@), true) =~= listed_as(
                Seq::new(j as nat, |k: int| dirs@[k].1@),
                true,
            ).push((dirs@[j as int].1@, true)));
            assert(entries_view(entries@) =~= up + listed_as(Seq::new((j + 1) as nat, |k: int| dirs@[k].1@), true));
            j = j + 1;
        }
        let ghost mid = entries_view(entries@);
        let mut j: usize = 0;
        assert(listed_as(Seq::new(0 as nat, |k: int| files@[k].1@), false) =~= Seq::<(Seq<char>, bool)>::empty());
        assert(mid + Seq::<(Seq<char>, bool)>::empty() =~= mid);
        while j < files.len()
            invariant
                j <= files@.len(),
                entries_view(entries@) == mid + listed_as(Seq::new(j as nat, |k: int| files@[k].1@), false),
            decreases files@.len() - j,
        {
            let ghost e0 = entries@;
            let x = files[j].1.clone();
            entries.push((x, false));
            assert(entries_view(entries@) =~= entries_view(e0).push((files@[j as int].1@, false)));
            assert(listed_as(Seq::new((j + 1) as nat, |k: int| files@[k].1@), false) =~= listed_as(
                Seq::new(j as nat, |k: int| files@[k].1@),
                false,
            ).push((files@[j as int].1@, false)));
            assert(entries_view(entries@) =~= mid + listed_as(Seq::new((j + 1) as nat, |k: int| files@[k].1@), false));
            j = j + 1;
        }
        self.entries = entries;
        self.scroll = 0;
        proof {
            let ds = Seq::new(dirs@.len(), |k: int| dirs@[k].1@);
            let fs = Seq::new(files@.len(), |k: int| files@[k].1@);
            assert(Seq::new(dirs@.len() as nat, |k: int| dirs@[k].1@) =~= ds);
            assert(Seq::new(files@.len() as nat, |k: int| files@[k].1@) =~= fs);
            assert(mid == up + listed_as(ds, true));
            assert(entries_view(self.entries@) == up + listed_as(ds, true) + listed_as(fs, false));
            assert(ds.to_multiset() == dnames.to_multiset());
            assert(sorted_names(ds, false) && sorted_names(fs, true));
        }
    }
}

} // verus!
