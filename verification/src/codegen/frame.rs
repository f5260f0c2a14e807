use vstd::prelude::*;
use crate::codegen::error::Error;
use crate::ir::types::Dtype;

verus! {

/// A spilled register's stack slot, at `offset_from_fp` bytes from the frame pointer.
#[derive(Debug, Clone, Copy)]
pub struct SpillSlot {
    pub offset_from_fp: i64,
}

/// The map that a list of (register, offset) entries denotes, later entries winning.
pub open spec fn slot_entries_map(entries: Seq<(usize, i64)>) -> Map<usize, i64>
    decreases entries.len(),
{
    if entries.len() == 0 {
        Map::empty()
    } else {
        slot_entries_map(entries.drop_last()).insert(entries.last().0, entries.last().1)
    }
}

/// `x` rounded up to a multiple of `align`.
pub open spec fn round_up(x: int, align: int) -> int {
    if x % align == 0 {
        x
    } else {
        x + (align - x % align)
    }
}

/// The stack frame of a function: its size in bytes and the slots of its
/// spilled registers, which lie below the frame pointer.
pub struct StackFrame {
    spills: Vec<(usize, i64)>,
    size: i64,
}

impl StackFrame {
    /// The slot offset of each spilled register.
    pub closed spec fn slot_map(&self) -> Map<usize, i64> {
        slot_entries_map(self.spills@)
    }

    /// The frame size in bytes.
    pub closed spec fn spec_size(&self) -> int {
        self.size as int
    }

    /// An empty frame.
    pub fn new() -> (r: Self)
        ensures
            r.slot_map() == Map::<usize, i64>::empty(),
            r.spec_size() == 0,
    {
        StackFrame { spills: Vec::new(), size: 0 }
    }

    /// The slot of `v`, if it has one.
    pub fn spill_slot(&self, v: usize) -> (r: Option<SpillSlot>)
        ensures
            r.is_some() == self.slot_map().contains_key(v),
            r matches Some(s) ==> s.offset_from_fp == self.slot_map()[v],
    {
        let mut j = self.spills.len();
        assert(self.spills@.take(j as int) =~= self.spills@);
        while j > 0
            invariant
                j <= self.spills@.len(),
                forall|t: int| j <= t < self.spills@.len() ==> #[trigger] self.spills@[t].0 != v,
                self.slot_map().contains_key(v) ==> slot_entries_map(self.spills@.take(j as int)).contains_key(v)
                    && slot_entries_map(self.spills@.take(j as int))[v] == self.slot_map()[v],
                !self.slot_map().contains_key(v) ==> !slot_entries_map(self.spills@.take(j as int)).contains_key(v),
            decreases j,
        {
            assert(self.spills@.take(j as int).drop_last() =~= self.spills@.take(j - 1));
            let e = self.spills[j - 1];
            if e.0 == v {
                return Some(SpillSlot { offset_from_fp: e.1 });
            }
            j -= 1;
        }
        assert(self.spills@.take(0) =~= Seq::<(usize, i64)>::empty());
        None
    }

    /// Gives `v` a new slot of `size` bytes, aligned to `align`, below the
    /// current frame; the frame grows to hold it.
    pub fn alloc_spill(&mut self, v: usize, size: i64, align: i64)
        requires
            0 <= size,
            1 <= align,
            0 <= old(self).spec_size(),
            old(self).spec_size() + size + align <= i64::MAX,
        ensures
            final(self).spec_size() == round_up(old(self).spec_size() + size, align as int),
            final(self).slot_map() == old(self).slot_map().insert(v, (-final(self).spec_size()) as i64),
    {
        let grown = self.size + size;
        let rem = grown % align;
        let new_size = if rem == 0 { grown } else { grown + (align - rem) };
        self.size = new_size;
        let ghost pre = self.spills@;
        self.spills.push((v, -new_size));
        assert(self.spills@.drop_last() =~= pre);
    }

    /// The frame size rounded up to 16 bytes.
    pub fn frame_size_aligned(&self) -> (r: i64)
        requires
            0 <= self.spec_size() <= i64::MAX - 16,
        ensures
            r == round_up(self.spec_size(), 16),
    {
        let rem = self.size % 16;
        if rem == 0 { self.size } else { self.size + (16 - rem) }
    }
}


/// The (size, alignment) in bytes of a value of type `d`, given the
/// (name, size, alignment) of each struct type, the first entry of a name
/// winning: none for a type without a layout, or whose size exceeds `i64`.
pub open spec fn layout_of(entries: Seq<(String, i64, i64)>, d: Dtype) -> Option<(int, int)>
    decreases d,
{
    match d {
        Dtype::I1 | Dtype::I32 => Some((4, 4)),
        Dtype::Pointer { .. } => Some((8, 8)),
        Dtype::Struct { struct_name } => match first_entry(entries, struct_name@) {
            Some(k) => Some((entries[k].1 as int, entries[k].2 as int)),
            None => None,
        },
        Dtype::Array { element, length: Some(n) } => match layout_of(entries, *element) {
            Some((s, a)) => if n * s <= i64::MAX {
                Some((n * s, a))
            } else {
                None
            },
            None => None,
        },
        _ => None,
    }
}

/// The index of the first entry named `name`.
pub open spec fn first_entry(entries: Seq<(String, i64, i64)>, name: Seq<char>) -> Option<int>
    decreases entries.len(),
{
    if entries.len() == 0 {
        None
    } else {
        match first_entry(entries.drop_last(), name) {
            Some(k) => Some(k),
            None => if entries.last().0@ == name {
                Some(entries.len() - 1)
            } else {
                None
            },
        }
    }
}

/// Every entry has a size and an alignment of at least zero.
pub open spec fn entries_nonneg(entries: Seq<(String, i64, i64)>) -> bool {
    forall|k: int| 0 <= k < entries.len() ==> 0 <= (#[trigger] entries[k]).1 && 0 <= entries[k].2
}

/// The sizes and alignments of the struct types of a program.
pub struct StructLayouts {
    entries: Vec<(String, i64, i64)>,
}

impl StructLayouts {
    /// The (name, size, alignment) entries.
    pub closed spec fn spec_entries(&self) -> Seq<(String, i64, i64)> {
        self.entries@
    }

    /// Layouts that know no struct type.
    pub fn new() -> (r: Self)
        ensures
            r.spec_entries() == Seq::<(String, i64, i64)>::empty(),
            entries_nonneg(r.spec_entries()),
    {
        StructLayouts { entries: Vec::new() }
    }

    /// Records the size and alignment of the struct type `name`.
    pub fn insert(&mut self, name: String, size: i64, align: i64)
        requires
            entries_nonneg(old(self).spec_entries()),
            0 <= size,
            0 <= align,
        ensures
            entries_nonneg(final(self).spec_entries()),
            final(self).spec_entries() == old(self).spec_entries().push((name, size, align)),
    {
        self.entries.push((name, size, align));
    }

    /// Size and alignment of a value of type `d`.
    pub fn size_align_of(&self, d: &Dtype) -> (r: Result<(i64, i64), Error>)
        requires
            entries_nonneg(self.spec_entries()),
        ensures
            match layout_of(self.spec_entries(), *d) {
                Some((s, a)) => r == Ok::<(i64, i64), Error>((s as i64, a as i64)),
                None => r matches Err(Error::UnsupportedDtype { dtype: t }) && t == *d,
            },
            r matches Ok((s, a)) ==> 0 <= s && 0 <= a,
            layout_of(self.spec_entries(), *d) matches Some((s, a)) ==> 0 <= s <= i64::MAX && 0 <= a <= i64::MAX,
        decreases d,
    {
        proof {
            lemma_layouts_nonneg(self.spec_entries(), *d);
        }
        match d {
            Dtype::I1 | Dtype::I32 => Ok((4, 4)),
            Dtype::Pointer { .. } => Ok((8, 8)),
            Dtype::Struct { struct_name } => {
                let mut k: usize = 0;
                while k < self.entries.len()
                    invariant
                        k <= self.entries@.len(),
                        first_entry(self.entries@.take(k as int), struct_name@) is None,
                        *d == (Dtype::Struct { struct_name: *struct_name }),
                        entries_nonneg(self.spec_entries()),
                    decreases self.entries@.len() - k,
                {
                    assert(self.entries@.take(k as int + 1).drop_last() =~= self.entries@.take(k as int));
                    if self.entries[k].0 == *struct_name {
                        proof {
                            assert(first_entry(self.entries@.take(k as int + 1), struct_name@) == Some(k as int));
                            lemma_first_entry_prefix(self.entries@, struct_name@, k as int + 1);
                        }
                        return Ok((self.entries[k].1, self.entries[k].2));
                    }
                    k += 1;
                }
                assert(self.entries@.take(k as int) =~= self.entries@);
                Err(Error::UnsupportedDtype { dtype: d.clone() })
            },
            Dtype::Array { element, length: Some(n) } => {
                match self.size_align_of(&**element) {
                    Ok((s, a)) => {
                        proof {
                            lemma_layouts_nonneg(self.spec_entries(), **element);
                            assert(layout_of(self.spec_entries(), **element) == Some((s as int, a as int)));
                            assert(layout_of(self.spec_entries(), *d) == (if (*n as int) * (s as int) <= i64::MAX {
                                Some(((*n as int) * (s as int), a as int))
                            } else {
                                None::<(int, int)>
                            }));
                        }
                        if s > 0 && (*n as u64) > (i64::MAX as u64) {
                            proof {
                                assert((*n as int) * (s as int) > i64::MAX) by (nonlinear_arith)
                                    requires
                                        *n as int > i64::MAX,
                                        s >= 1;
                            }
                            return Err(Error::UnsupportedDtype { dtype: d.clone() });
                        }
                        if s == 0 {
                            assert((*n as int) * (s as int) == 0) by (nonlinear_arith)
                                requires
                                    s == 0;
                            return Ok((0, a));
                        }
                        let count = *n as i64;
                        assert(count as int == *n as int);
                        match count.checked_mul(s) {
                            Some(size) => Ok((size, a)),
                            None => Err(Error::UnsupportedDtype { dtype: d.clone() }),
                        }
                    },
                    Err(_) => Err(Error::UnsupportedDtype { dtype: d.clone() }),
                }
            },
            _ => Err(Error::UnsupportedDtype { dtype: d.clone() }),
        }
    }
}

proof fn lemma_first_entry_prefix(entries: Seq<(String, i64, i64)>, name: Seq<char>, k: int)
    requires
        0 <= k <= entries.len(),
        first_entry(entries.take(k), name) is Some,
    ensures
        first_entry(entries, name) == first_entry(entries.take(k), name),
    decreases entries.len() - k,
{
    if k < entries.len() {
        assert(entries.take(k + 1).drop_last() =~= entries.take(k));
        lemma_first_entry_prefix(entries, name, k + 1);
    } else {
        assert(entries.take(k) =~= entries);
    }
}

proof fn lemma_first_entry_bounds(entries: Seq<(String, i64, i64)>, name: Seq<char>)
    ensures
        first_entry(entries, name) matches Some(k) ==> 0 <= k < entries.len() && entries[k].0@ == name,
    decreases entries.len(),
{
    if entries.len() > 0 {
        lemma_first_entry_bounds(entries.drop_last(), name);
    }
}

proof fn lemma_layouts_nonneg(entries: Seq<(String, i64, i64)>, d: Dtype)
    requires
        entries_nonneg(entries),
    ensures
        layout_of(entries, d) matches Some((s, a)) ==> 0 <= s <= i64::MAX && 0 <= a <= i64::MAX,
    decreases d,
{
    match d {
        Dtype::Struct { struct_name } => {
            lemma_first_entry_bounds(entries, struct_name@);
        },
        Dtype::Array { element, length: Some(n) } => {
            lemma_layouts_nonneg(entries, *element);
            if let Some((s, a)) = layout_of(entries, *element) {
                assert(0 <= n * s) by (nonlinear_arith)
                    requires
                        0 <= n,
                        0 <= s;
            }
        },
        _ => {},
    }
}

} // verus!
