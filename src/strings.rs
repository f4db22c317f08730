use vstd::prelude::*;
use vstd::utf8::encode_utf8;

verus! {

/// Bytes that one string occupies in the table: its UTF-8 bytes and a NUL.
pub open spec fn entry_size(s: Seq<char>) -> int {
    encode_utf8(s).len() as int + 1
}

/// Total size in bytes of a table holding the strings `ss` in this order.
pub open spec fn total_size(ss: Seq<Seq<char>>) -> int
    decreases ss.len(),
{
    if ss.len() == 0 {
        0
    } else {
        total_size(ss.drop_last()) + entry_size(ss.last())
    }
}

/// The serialised table: each string's bytes followed by one NUL byte.
pub open spec fn layout(ss: Seq<Seq<char>>) -> Seq<u8>
    decreases ss.len(),
{
    if ss.len() == 0 {
        Seq::empty()
    } else {
        layout(ss.drop_last()) + encode_utf8(ss.last()) + seq![0u8]
    }
}

/// Byte offset at which the `k`-th string of the table begins.
pub open spec fn offset_of(ss: Seq<Seq<char>>, k: int) -> int {
    total_size(ss.take(k))
}

/// `k` is the position of the first occurrence of `s` in `ss`.
pub open spec fn is_first_occurrence(ss: Seq<Seq<char>>, s: Seq<char>, k: int) -> bool {
    &&& 0 <= k < ss.len()
    &&& ss[k] == s
    &&& forall|j: int| 0 <= j < k ==> ss[j] != s
}

/// Position of the first occurrence of `s` in `ss` (meaningful when `ss` holds `s`).
pub open spec fn first_occurrence(ss: Seq<Seq<char>>, s: Seq<char>) -> int {
    choose|k: int| is_first_occurrence(ss, s, k)
}

/// The table and the index after a deduplicating insert of `s` into `ss`.
pub open spec fn insert_result(ss: Seq<Seq<char>>, s: Seq<char>) -> (Seq<Seq<char>>, int) {
    if ss.contains(s) {
        (ss, offset_of(ss, first_occurrence(ss, s)))
    } else {
        (ss.push(s), total_size(ss))
    }
}

/// The table and the index after an unconditional push of `s` onto `ss`.
pub open spec fn push_result(ss: Seq<Seq<char>>, s: Seq<char>) -> (Seq<Seq<char>>, int) {
    (ss.push(s), total_size(ss))
}

proof fn lemma_total_size_nonneg(ss: Seq<Seq<char>>)
    ensures
        total_size(ss) >= 0,
    decreases ss.len(),
{
    if ss.len() > 0 {
        lemma_total_size_nonneg(ss.drop_last());
    }
}

proof fn lemma_take_push(ss: Seq<Seq<char>>, s: Seq<char>)
    ensures
        ss.push(s).take(ss.len() as int) == ss,
        ss.push(s).drop_last() == ss,
{
    assert(ss.push(s).take(ss.len() as int) =~= ss);
    assert(ss.push(s).drop_last() =~= ss);
}

proof fn lemma_first_occurrence_unique(ss: Seq<Seq<char>>, s: Seq<char>, k: int)
    requires
        is_first_occurrence(ss, s, k),
    ensures
        first_occurrence(ss, s) == k,
{
    let c = first_occurrence(ss, s);
    assert(is_first_occurrence(ss, s, c));
    if c < k {
        assert(ss[c] != s);
    } else if c > k {
        assert(ss[k] != s);
    }
}

/// An append-only interner whose indices are byte offsets into the serialised
/// table. `insert` deduplicates; `push` always appends.
pub struct StringTable {
    /// Every appended string with its offset, in order of offset.
    contiguous_data: Vec<(String, u32)>,
    size_in_bytes: u32,
}

impl View for StringTable {
    type V = Seq<Seq<char>>;

    /// The strings of the table in order of offset, duplicates from `push` included.
    closed spec fn view(&self) -> Seq<Seq<char>> {
        self.contiguous_data@.map_values(|e: (String, u32)| e.0@)
    }
}

impl StringTable {
    pub closed spec fn wf(&self) -> bool {
        &&& self.size_in_bytes == total_size(self@)
        &&& forall|k: int|
            0 <= k < self.contiguous_data@.len() ==> #[trigger] self.contiguous_data@[k].1
                == offset_of(self@, k)
    }

    pub fn new() -> (r: StringTable)
        ensures
            r.wf(),
            r@ == Seq::<Seq<char>>::empty(),
    {
        let r = StringTable { contiguous_data: Vec::new(), size_in_bytes: 0 };
        assert(r@ =~= Seq::<Seq<char>>::empty());
        r
    }

    /// The offset that the next appended string will get.
    pub fn next_index(&self) -> (r: u32)
        requires
            self.wf(),
        ensures
            r == total_size(self@),
    {
        self.size_in_bytes
    }

    /// Position of the first entry equal to `s`, if any.
    fn find(&self, s: &String) -> (r: Option<usize>)
        requires
            self.wf(),
        ensures
            match r {
                Some(k) => is_first_occurrence(self@, s@, k as int),
                None => !self@.contains(s@),
            },
    {
        let n = self.contiguous_data.len();
        let mut i: usize = 0;
        while i < n
            invariant
                n == self.contiguous_data@.len(),
                n == self@.len(),
                0 <= i <= n,
                forall|j: int| 0 <= j < i ==> self@[j] != s@,
            decreases n - i,
        {
            if self.contiguous_data[i].0 == *s {
                return Some(i);
            }
            i = i + 1;
        }
        None
    }

    /// Appends `s` at the end, keeping the offsets consistent.
    fn append(&mut self, s: String) -> (r: u32)
        requires
            old(self).wf(),
            total_size(old(self)@) + entry_size(s@) <= u32::MAX,
        ensures
            final(self).wf(),
            final(self)@ == old(self)@.push(s@),
            r == total_size(old(self)@),
    {
        let ghost old_view = self@;
        let idx = self.size_in_bytes;
        let len = s.as_str().len();
        proof {
            lemma_total_size_nonneg(old_view);
        }
        self.contiguous_data.push((s, idx));
        self.size_in_bytes = idx + len as u32 + 1;
        proof {
            let v = self@;
            assert(v =~= old_view.push(s@));
            lemma_take_push(old_view, s@);
            assert forall|k: int| 0 <= k < self.contiguous_data@.len() implies #[trigger] self.contiguous_data@[k].1
                == offset_of(self@, k) by {
                if k < old_view.len() {
                    assert(old_view.push(s@).take(k) =~= old_view.take(k));
                }
            }
        }
        idx
    }

    /// Inserts a string and returns its index; a string inserted or pushed
    /// before keeps the index of its first appearance.
    pub fn insert(&mut self, s: &str) -> (r: u32)
        requires
            old(self).wf(),
            !old(self)@.contains(s@) ==> total_size(old(self)@) + entry_size(s@) <= u32::MAX,
        ensures
            final(self).wf(),
            (final(self)@, r as int) == insert_result(old(self)@, s@),
    {
        let owned = s.to_owned();
        match self.find(&owned) {
            Some(k) => {
                proof {
                    lemma_first_occurrence_unique(self@, s@, k as int);
                }
                self.contiguous_data[k].1
            },
            None => self.append(owned),
        }
    }

    /// Appends a string whether or not it is already in the table, and returns
    /// its index. Runs of pushed strings are contiguous in the serialised table.
    pub fn push(&mut self, s: &str) -> (r: u32)
        requires
            old(self).wf(),
            total_size(old(self)@) + entry_size(s@) <= u32::MAX,
        ensures
            final(self).wf(),
            (final(self)@, r as int) == push_result(old(self)@, s@),
    {
        self.append(s.to_owned())
    }

    /// Consumes the table and returns its serialised form.
    pub fn into_bytes(self) -> (r: Vec<u8>)
        requires
            self.wf(),
        ensures
            r@ == layout(self@),
    {
        let mut data: Vec<u8> = Vec::new();
        let n = self.contiguous_data.len();
        let mut k: usize = 0;
        assert(self@.take(0) =~= Seq::<Seq<char>>::empty());
        while k < n
            invariant
                n == self.contiguous_data@.len(),
                n == self@.len(),
                0 <= k <= n,
                data@ == layout(self@.take(k as int)),
            decreases n - k,
        {
            let bytes = self.contiguous_data[k].0.as_str().as_bytes();
            let m = bytes.len();
            let mut j: usize = 0;
            while j < m
                invariant
                    m == bytes@.len(),
                    bytes@ == encode_utf8(self@[k as int]),
                    0 <= j <= m,
                    data@ == layout(self@.take(k as int)) + bytes@.take(j as int),
                decreases m - j,
            {
                data.push(bytes[j]);
                proof {
                    assert(bytes@.take(j + 1) =~= bytes@.take(j as int).push(bytes@[j as int]));
                }
                j = j + 1;
            }
            data.push(0u8);
            proof {
                let t = self@.take(k + 1);
                assert(t.drop_last() =~= self@.take(k as int));
                assert(bytes@.take(m as int) =~= bytes@);
            }
            k = k + 1;
        }
        assert(self@.take(n as int) =~= self@);
        data
    }
}

/// Inserting the same string twice returns the same index both times, and
/// the second insert leaves the table as it was.
pub proof fn insert_twice_same_index(ss: Seq<Seq<char>>, s: Seq<char>)
    ensures
        insert_result(insert_result(ss, s).0, s).1 == insert_result(ss, s).1,
        insert_result(insert_result(ss, s).0, s).0 == insert_result(ss, s).0,
{
    if !ss.contains(s) {
        let ss1 = ss.push(s);
        assert(ss1[ss.len() as int] == s);
        assert(ss1.contains(s));
        assert forall|j: int| 0 <= j < ss.len() implies ss1[j] != s by {
            assert(ss1[j] == ss[j]);
            assert(!ss.contains(s));
        }
        assert(is_first_occurrence(ss1, s, ss.len() as int));
        lemma_first_occurrence_unique(ss1, s, ss.len() as int);
        lemma_take_push(ss, s);
    }
}

/// The serialised table is exactly as long as the next index, and each
/// string's index points at its bytes, which are followed by a NUL.
pub proof fn layout_matches_indices(ss: Seq<Seq<char>>, k: int)
    requires
        0 <= k < ss.len(),
    ensures
        layout(ss).len() == total_size(ss),
        offset_of(ss, k) + entry_size(ss[k]) <= total_size(ss),
        layout(ss).subrange(offset_of(ss, k), offset_of(ss, k) + encode_utf8(ss[k]).len())
            == encode_utf8(ss[k]),
        layout(ss)[offset_of(ss, k) + encode_utf8(ss[k]).len()] == 0u8,
    decreases ss.len(),
{
    lemma_layout_len(ss);
    let p = ss.drop_last();
    lemma_layout_len(p);
    if k == ss.len() - 1 {
        assert(ss.take(k) =~= p);
        let o = offset_of(ss, k);
        let e = encode_utf8(ss[k]);
        assert(layout(ss) == layout(p) + e + seq![0u8]);
        assert(layout(ss).subrange(o, o + e.len()) =~= e);
    } else {
        layout_matches_indices(p, k);
        assert(ss.take(k) =~= p.take(k));
        assert(p[k] == ss[k]);
        assert(offset_of(ss, k) == offset_of(p, k));
        lemma_layout_len(p);
        let o = offset_of(ss, k);
        let e = encode_utf8(ss[k]);
        assert(layout(ss) == layout(p) + encode_utf8(ss.last()) + seq![0u8]);
        assert(o + e.len() < layout(p).len());
        lemma_total_size_nonneg(ss.take(k));
        assert(layout(ss).subrange(o, o + e.len()) =~= layout(p).subrange(o, o + e.len()));
        assert(layout(ss)[o + e.len()] == layout(p)[o + e.len()]);
    }
}

proof fn lemma_layout_len(ss: Seq<Seq<char>>)
    ensures
        layout(ss).len() == total_size(ss),
    decreases ss.len(),
{
    if ss.len() > 0 {
        lemma_layout_len(ss.drop_last());
    }
}


/// The index that `insert` or `push` returns points at the string's bytes in
/// the serialised table, followed by a NUL, and later appends keep it so.
pub proof fn returned_index_points_at_string(ss: Seq<Seq<char>>, s: Seq<char>, later: Seq<Seq<char>>, pushed: bool)
    ensures
        ({
            let (ss2, r) = if pushed {
                push_result(ss, s)
            } else {
                insert_result(ss, s)
            };
            let full = ss2 + later;
            &&& layout(full).len() == total_size(full)
            &&& layout(full).subrange(r, r + encode_utf8(s).len()) == encode_utf8(s)
            &&& layout(full)[r + encode_utf8(s).len()] == 0u8
        }),
{
    let (ss2, r) = if pushed {
        push_result(ss, s)
    } else {
        insert_result(ss, s)
    };
    let full = ss2 + later;
    let k = if !pushed && ss.contains(s) {
        let k = choose|j: int| 0 <= j < ss.len() && ss[j] == s;
        lemma_first_occurrence_exists(ss, s, k)
    } else {
        lemma_take_push(ss, s);
        ss.len() as int
    };
    assert(full[k] == s);
    assert(full.take(k) =~= ss2.take(k));
    layout_matches_indices(full, k);
}

proof fn lemma_first_occurrence_exists(ss: Seq<Seq<char>>, s: Seq<char>, j: int) -> (k: int)
    requires
        0 <= j < ss.len(),
        ss[j] == s,
    ensures
        is_first_occurrence(ss, s, k),
        first_occurrence(ss, s) == k,
    decreases j,
{
    if exists|i: int| 0 <= i < j && ss[i] == s {
        let i = choose|i: int| 0 <= i < j && ss[i] == s;
        lemma_first_occurrence_exists(ss, s, i)
    } else {
        lemma_first_occurrence_unique(ss, s, j);
        j
    }
}

} // verus!
