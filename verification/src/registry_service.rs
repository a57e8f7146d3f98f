//! The registry: behavior signatures, shape definitions and the memory
//! layout of types.

use vstd::prelude::*;
use crate::options::LogLevel;
use crate::registry::{BehaviorRegistryPort, BehaviorSignature, SymbolTable, entry_names, find_entry, first_index_of, put_entry};
use crate::types::{OnuType, spec_primitive_named};
use crate::wasm::decimal_value;

verus! {

/// The fields and behaviors of a shape.
#[derive(Debug, PartialEq, Eq, Hash)]
pub struct ShapeDefinition {
    pub fields: Vec<(String, OnuType)>,
    pub behaviors: Vec<(String, BehaviorSignature)>,
}

/// The compilation registry: behavior signatures and shape definitions.
pub struct RegistryService {
    symbols: SymbolTable,
    shapes: Vec<(String, ShapeDefinition)>,
    log_level: LogLevel,
}

/// `offset` rounded up to the next multiple of the alignment `align`, as a
/// C layout places fields: `(offset + align - 1) / align * align`; `None`
/// where that does not fit.
pub open spec fn spec_align_up(offset: usize, align: usize) -> Option<usize> {
    if align == 0 || offset + align - 1 > usize::MAX {
        None
    } else {
        Some(((offset + align - 1) / (align as int) * align) as usize)
    }
}

/// The byte width of a `WideInt` of `bits` bits: `(bits + 7) / 8`.
pub open spec fn spec_wide_bytes(bits: u32) -> Option<usize> {
    if bits + 7 > usize::MAX {
        None
    } else {
        Some(((bits + 7) / 8) as usize)
    }
}

/// The types of the fields of a shape, in order.
pub open spec fn field_types(fields: Seq<(String, OnuType)>) -> Seq<OnuType> {
    fields.map_values(|f: (String, OnuType)| f.1)
}

impl RegistryService {
    /// The behavior symbols.
    pub closed spec fn symbols(&self) -> SymbolTable {
        self.symbols
    }

    /// The definition of the shape of a name, if any.
    pub closed spec fn spec_shape(&self, name: Seq<char>) -> Option<ShapeDefinition> {
        match first_index_of(entry_names(self.shapes@), name) {
            Some(i) => Some(self.shapes@[i].1),
            None => None,
        }
    }

    /// The names of the defined shapes, in the order they were first defined.
    pub closed spec fn spec_shape_names(&self) -> Seq<String> {
        entry_names(self.shapes@)
    }

    /// The definitions of the shapes, parallel to `spec_shape_names`.
    pub closed spec fn spec_shapes(&self) -> Seq<ShapeDefinition> {
        self.shapes@.map_values(|e: (String, ShapeDefinition)| e.1)
    }

    /// The level of detail of the registry's own reports.
    pub closed spec fn spec_log_level(&self) -> LogLevel {
        self.log_level
    }

    /// How many shapes may be entered while computing a layout.
    pub open spec fn layout_fuel(&self) -> nat {
        self.spec_shape_names().len()
    }

    /// The alignment of a type; `None` where a shape nests deeper than
    /// `fuel` levels or an integer does not fit.
    pub open spec fn align_spec(&self, t: OnuType, fuel: nat) -> Option<usize>
        decreases fuel, t, 0int,
    {
        match t {
            OnuType::I8 | OnuType::U8 | OnuType::Boolean => Some(1),
            OnuType::I16 | OnuType::U16 => Some(2),
            OnuType::I32 | OnuType::U32 | OnuType::F32 => Some(4),
            OnuType::I64 | OnuType::U64 | OnuType::F64 | OnuType::Ptr => Some(8),
            OnuType::I128 | OnuType::U128 => Some(16),
            OnuType::WideInt(bits) => spec_wide_bytes(bits),
            OnuType::Strings => Some(8),
            OnuType::Matrix => Some(8),
            OnuType::Nothing => Some(1),
            OnuType::Tuple(xs) => {
                proof {
                    broadcast use vstd::std_specs::vec::axiom_vec_decreases_to_view;
                    assert(decreases_to!(t => xs));
                    assert(decreases_to!(xs => xs@));
                }
                self.max_align_from(xs@, 0, 0, fuel)
            },
            OnuType::Shape(name) => match self.spec_shape(name@) {
                Some(def) => if fuel == 0 {
                    None
                } else {
                    self.max_align_from(field_types(def.fields@), 0, 0, (fuel - 1) as nat)
                },
                None => Some(8),
            },
            OnuType::Array(_) | OnuType::HashMap(_, _) | OnuType::Tree(_) => Some(8),
        }
    }

    /// The largest alignment of `ts[i..]`, starting from `acc` (an empty
    /// list has alignment 1).
    pub open spec fn max_align_from(&self, ts: Seq<OnuType>, i: int, acc: usize, fuel: nat) -> Option<usize>
        decreases fuel, ts, ts.len() - i,
    {
        if i < 0 || i >= ts.len() {
            if ts.len() == 0 { Some(1) } else { Some(acc) }
        } else {
            match self.align_spec(ts[i], fuel) {
                Some(a) => self.max_align_from(ts, i + 1, if a > acc { a } else { acc }, fuel),
                None => None,
            }
        }
    }

    /// The size in bytes of a type, C-style layout; `None` where a shape
    /// nests deeper than `fuel` levels or an integer does not fit.
    pub open spec fn size_spec(&self, t: OnuType, fuel: nat) -> Option<usize>
        decreases fuel, t, 0int,
    {
        match t {
            OnuType::I8 | OnuType::U8 | OnuType::Boolean => Some(1),
            OnuType::I16 | OnuType::U16 => Some(2),
            OnuType::I32 | OnuType::U32 | OnuType::F32 => Some(4),
            OnuType::I64 | OnuType::U64 | OnuType::F64 | OnuType::Ptr => Some(8),
            OnuType::I128 | OnuType::U128 => Some(16),
            OnuType::WideInt(bits) => spec_wide_bytes(bits),
            // { i64 len, i8* ptr, i1 is_dynamic }: 8 + 8 + 1, padded to 8.
            OnuType::Strings => Some(24),
            OnuType::Matrix => Some(8),
            OnuType::Nothing => Some(0),
            OnuType::Tuple(xs) => {
                proof {
                    broadcast use vstd::std_specs::vec::axiom_vec_decreases_to_view;
                    assert(decreases_to!(t => xs));
                    assert(decreases_to!(xs => xs@));
                }
                match self.layout_from(xs@, 0, 0, fuel) {
                    Some(end) => match self.align_spec(t, fuel) {
                        Some(a) => spec_align_up(end, a),
                        None => None,
                    },
                    None => None,
                }
            },
            OnuType::Shape(name) => match self.spec_shape(name@) {
                Some(def) => if fuel == 0 {
                    None
                } else {
                    match self.layout_from(field_types(def.fields@), 0, 0, (fuel - 1) as nat) {
                        Some(end) => match self.align_spec(t, fuel) {
                            Some(a) => spec_align_up(end, a),
                            None => None,
                        },
                        None => None,
                    }
                },
                None => Some(8),
            },
            OnuType::Array(_) | OnuType::HashMap(_, _) | OnuType::Tree(_) => Some(8),
        }
    }

    /// The end offset of laying out `ts[i..]` one after another from
    /// `offset`, each aligned to its own alignment.
    pub open spec fn layout_from(&self, ts: Seq<OnuType>, i: int, offset: usize, fuel: nat) -> Option<usize>
        decreases fuel, ts, ts.len() - i,
    {
        if i < 0 || i >= ts.len() {
            Some(offset)
        } else {
            match (self.size_spec(ts[i], fuel), self.align_spec(ts[i], fuel)) {
                (Some(size), Some(align)) => match spec_align_up(offset, align) {
                    Some(start) => if start + size > usize::MAX {
                        None
                    } else {
                        self.layout_from(ts, i + 1, (start + size) as usize, fuel)
                    },
                    None => None,
                },
                _ => None,
            }
        }
    }

    /// The offset at which the `k`-th of the types `ts`, laid out one after
    /// another from offset 0, starts.
    pub open spec fn field_start(&self, ts: Seq<OnuType>, k: int, fuel: nat) -> Option<usize> {
        match (self.layout_from(ts.take(k), 0, 0, fuel), self.align_spec(ts[k], fuel)) {
            (Some(end), Some(a)) => spec_align_up(end, a),
            _ => None,
        }
    }

    /// The field types of a tuple, or of a defined shape, with the fuel their
    /// layout is computed with.
    pub open spec fn layout_fields(&self, t: OnuType, fuel: nat) -> Option<(Seq<OnuType>, nat)> {
        match t {
            OnuType::Tuple(xs) => Some((xs@, fuel)),
            OnuType::Shape(name) => match self.spec_shape(name@) {
                Some(def) => if fuel == 0 { None } else { Some((field_types(def.fields@), (fuel - 1) as nat)) },
                None => None,
            },
            _ => None,
        }
    }
}

/// Rounds `offset` up to `align` as the layout does; `None` where the
/// alignment is 0 or the rounding does not fit.
fn align_up(offset: usize, align: usize) -> (r: Option<usize>)
    ensures
        r == spec_align_up(offset, align),
        r matches Some(v) ==> v % align == 0 && offset <= v,
{
    if align == 0 || offset > usize::MAX - (align - 1) {
        return None;
    }
    let x = offset + (align - 1);
    let q = x / align;
    assert(q * align <= x && x < q * align + align) by (nonlinear_arith)
        requires
            align > 0,
            q == x / align,
    ;
    assert((q * align) % (align as int) == 0) by (nonlinear_arith)
        requires
            align > 0,
    ;
    Some(q * align)
}

/// The byte width of a `WideInt`; `None` where it does not fit.
fn wide_bytes(bits: u32) -> (r: Option<usize>)
    ensures
        r == spec_wide_bytes(bits),
{
    let b = bits as usize;
    if b > usize::MAX - 7 {
        return None;
    }
    Some((b + 7) / 8)
}

impl RegistryService {
    /// An empty registry.
    pub fn new() -> (r: RegistryService)
        ensures
            forall|n: Seq<char>| r.symbols().spec_lookup(n) is None,
            forall|n: Seq<char>| !r.symbols().spec_is_implemented(n),
            forall|n: Seq<char>| r.spec_shape(n) is None,
            r.spec_shape_names().len() == 0,
            r.spec_log_level() == LogLevel::Info,
    {
        RegistryService {
            symbols: SymbolTable::new(),
            shapes: Vec::new(),
            log_level: LogLevel::Info,
        }
    }

    /// The signature of a behavior, if known.
    pub fn get_signature(&self, name: &str) -> (r: Option<&BehaviorSignature>)
        ensures
            r matches Some(s) ==> self.symbols().spec_lookup(name@) == Some(*s),
            r is None ==> self.symbols().spec_lookup(name@) is None,
    {
        self.symbols.get_signature(name)
    }

    /// Records (or replaces) the definition of a shape.
    pub fn add_shape(&mut self, name: &str, fields: Vec<(String, OnuType)>, behaviors: Vec<(String, BehaviorSignature)>)
        ensures
            final(self).spec_shape(name@) == Some(ShapeDefinition { fields, behaviors }),
            forall|n: Seq<char>| n != name@ ==> final(self).spec_shape(n) == old(self).spec_shape(n),
            final(self).symbols() == old(self).symbols(),
    {
        let def = ShapeDefinition { fields, behaviors };
        let ghost before = self.shapes@;
        let ghost d = def;
        put_entry(&mut self.shapes, name, def);
        proof {
            crate::registry::lemma_put_entry_lookup(before, self.shapes@, name@, d, name@);
            assert forall|n: Seq<char>| n != name@ implies self.spec_shape(n) == old(self).spec_shape(n) by {
                crate::registry::lemma_put_entry_lookup(before, self.shapes@, name@, d, n);
            }
        }
    }

    /// Whether a shape of this name is defined.
    pub fn is_shape(&self, name: &str) -> (r: bool)
        ensures
            r == (self.spec_shape(name@) is Some),
    {
        find_entry(&self.shapes, name).is_some()
    }

    /// The definition of a shape, if defined.
    pub fn get_shape(&self, name: &str) -> (r: Option<&ShapeDefinition>)
        ensures
            r matches Some(d) ==> self.spec_shape(name@) == Some(*d),
            r is None ==> self.spec_shape(name@) is None,
    {
        match find_entry(&self.shapes, name) {
            Some(i) => Some(&self.shapes[i].1),
            None => None,
        }
    }

    /// A shape that has a field of this name, and the field's position; the
    /// shapes are searched in the order they were first defined.
    pub fn find_field(&self, name: &str) -> (r: Option<(&String, usize)>)
        ensures
            r matches Some((s, idx)) ==> exists|k: int|
                0 <= k < self.spec_shapes().len() && #[trigger] self.spec_shape_names()[k] == *s
                && idx < self.spec_shapes()[k].fields@.len()
                && self.spec_shapes()[k].fields@[idx as int].0@ == name@
                && (forall|jj: int| 0 <= jj < idx ==> self.spec_shapes()[k].fields@[jj].0@ != name@)
                && (forall|kk: int, jj: int| 0 <= kk < k && 0 <= jj < self.spec_shapes()[kk].fields@.len()
                    ==> self.spec_shapes()[kk].fields@[jj].0@ != name@),
            r is None ==> forall|k: int, j: int|
                0 <= k < self.spec_shapes().len() && 0 <= j < self.spec_shapes()[k].fields@.len()
                ==> (#[trigger] self.spec_shapes()[k].fields@[j]).0@ != name@,
    {
        let mut k: usize = 0;
        while k < self.shapes.len()
            invariant
                k <= self.shapes@.len(),
                forall|kk: int, j: int|
                    0 <= kk < k && 0 <= j < self.shapes@[kk].1.fields@.len()
                    ==> (#[trigger] self.shapes@[kk].1.fields@[j]).0@ != name@,
            decreases self.shapes.len() - k,
        {
            let fields = &self.shapes[k].1.fields;
            let mut j: usize = 0;
            while j < fields.len()
                invariant
                    k < self.shapes@.len(),
                    *fields == self.shapes@[k as int].1.fields,
                    j <= fields@.len(),
                    forall|jj: int| 0 <= jj < j ==> fields@[jj].0@ != name@,
                    forall|kk: int, jj: int|
                        0 <= kk < k && 0 <= jj < self.shapes@[kk].1.fields@.len()
                        ==> (#[trigger] self.shapes@[kk].1.fields@[jj]).0@ != name@,
                decreases fields.len() - j,
            {
                if crate::text::str_eq(fields[j].0.as_str(), name) {
                    proof {
                        assert(self.spec_shapes()[k as int] == self.shapes@[k as int].1);
                        assert(self.spec_shape_names()[k as int] == self.shapes@[k as int].0);
                        assert(self.spec_shapes()[k as int].fields@[j as int].0@ == name@);
                        let kk = k as int;
                        assert(forall|jj: int| 0 <= jj < j ==> self.spec_shapes()[kk].fields@[jj].0@ != name@);
                        assert(0 <= kk < self.spec_shapes().len() && self.spec_shape_names()[kk] == self.shapes@[kk].0
                            && j < self.spec_shapes()[kk].fields@.len()
                            && (self.spec_shapes()[kk].fields@[j as int]).0@ == name@
                            && forall|jj: int| 0 <= jj < j ==> self.spec_shapes()[kk].fields@[jj].0@ != name@);
                        assert forall|k2: int, jj: int| 0 <= k2 < kk && 0 <= jj < self.spec_shapes()[k2].fields@.len()
                            implies self.spec_shapes()[k2].fields@[jj].0@ != name@ by {
                            assert(self.spec_shapes()[k2] == self.shapes@[k2].1);
                            assert(self.shapes@[k2].1.fields@[jj].0@ != name@);
                        }
                    }
                    return Some((&self.shapes[k].0, j));
                }
                j = j + 1;
            }
            k = k + 1;
        }
        proof {
            assert forall|kk: int, j: int|
                0 <= kk < self.spec_shapes().len() && 0 <= j < self.spec_shapes()[kk].fields@.len()
                implies (#[trigger] self.spec_shapes()[kk].fields@[j]).0@ != name@ by {
                assert(self.spec_shapes()[kk] == self.shapes@[kk].1);
                assert(self.shapes@[kk].1.fields@[j].0@ != name@);
            }
        }
        None
    }

    /// The behavior symbols, for registration.
    pub fn symbols_mut(&mut self) -> (r: &mut SymbolTable)
        ensures
            *r == old(self).symbols(),
            final(self).symbols() == *final(r),
            forall|n: Seq<char>| final(self).spec_shape(n) == old(self).spec_shape(n),
            final(self).spec_shape_names() == old(self).spec_shape_names(),
            final(self).spec_shapes() == old(self).spec_shapes(),
            final(self).spec_log_level() == old(self).spec_log_level(),
    {
        &mut self.symbols
    }

    /// The level of detail of the registry's own reports.
    pub fn log_level(&self) -> (r: LogLevel)
        ensures
            r == self.spec_log_level(),
    {
        self.log_level
    }

    /// Sets the level of detail of the registry's own reports.
    pub fn set_log_level(&mut self, level: LogLevel)
        ensures
            final(self).spec_log_level() == level,
            final(self).spec_shape_names() == old(self).spec_shape_names(),
            final(self).spec_shapes() == old(self).spec_shapes(),
            final(self).symbols() == old(self).symbols(),
            forall|n: Seq<char>| final(self).spec_shape(n) == old(self).spec_shape(n),
    {
        self.log_level = level;
    }

    /// Marks a behavior as implemented.
    pub fn mark_implemented(&mut self, name: &str)
        ensures
            final(self).symbols().spec_is_implemented(name@),
            forall|n: Seq<char>| n != name@ ==> final(self).symbols().spec_is_implemented(n) == old(self).symbols().spec_is_implemented(n),
            forall|n: Seq<char>| final(self).symbols().spec_lookup(n) == old(self).symbols().spec_lookup(n),
            forall|n: Seq<char>| final(self).spec_shape(n) == old(self).spec_shape(n),
    {
        self.symbols.mark_implemented(name);
    }
}

impl RegistryService {
    /// The largest alignment among a list of types (1 for an empty list).
    fn max_align_of_list(&self, ts: &Vec<OnuType>, fuel: usize) -> (r: Option<usize>)
        ensures
            r == self.max_align_from(ts@, 0, 0, fuel as nat),
        decreases fuel, ts, 1int,
    {
        if ts.len() == 0 {
            return Some(1);
        }
        let mut acc: usize = 0;
        let mut i: usize = 0;
        while i < ts.len()
            invariant
                i <= ts@.len(),
                ts@.len() > 0,
                self.max_align_from(ts@, i as int, acc, fuel as nat) == self.max_align_from(ts@, 0, 0, fuel as nat),
            decreases ts.len() - i,
        {
            proof {
                broadcast use vstd::std_specs::vec::axiom_vec_decreases_to_view;
                assert(decreases_to!(ts => ts@));
            }
            let a = match self.align_with(&ts[i], fuel) {
                Some(a) => a,
                None => return None,
            };
            if a > acc {
                acc = a;
            }
            i = i + 1;
        }
        Some(acc)
    }

    /// The largest alignment among the field types of a shape.
    fn max_align_of_fields(&self, fields: &Vec<(String, OnuType)>, fuel: usize) -> (r: Option<usize>)
        ensures
            r == self.max_align_from(field_types(fields@), 0, 0, fuel as nat),
        decreases fuel, fields, 1int,
    {
        let ghost ts = field_types(fields@);
        if fields.len() == 0 {
            return Some(1);
        }
        let mut acc: usize = 0;
        let mut i: usize = 0;
        while i < fields.len()
            invariant
                i <= ts.len(),
                ts == field_types(fields@),
                ts.len() == fields@.len(),
                ts.len() > 0,
                self.max_align_from(ts, i as int, acc, fuel as nat) == self.max_align_from(ts, 0, 0, fuel as nat),
            decreases fields.len() - i,
        {
            assert(ts[i as int] == fields@[i as int].1);
            proof {
                broadcast use vstd::std_specs::vec::axiom_vec_decreases_to_view;
                assert(decreases_to!(fields => fields@));
                assert(decreases_to!(fields@ => fields@[i as int]));
                assert(decreases_to!(fields@[i as int] => fields@[i as int].1));
            }
            let a = match self.align_with(&fields[i].1, fuel) {
                Some(a) => a,
                None => return None,
            };
            if a > acc {
                acc = a;
            }
            i = i + 1;
        }
        Some(acc)
    }

    /// The end offset of laying out the field types of a shape.
    fn layout_of_fields(&self, fields: &Vec<(String, OnuType)>, fuel: usize) -> (r: Option<usize>)
        ensures
            r == self.layout_from(field_types(fields@), 0, 0, fuel as nat),
        decreases fuel, fields, 1int,
    {
        let ghost ts = field_types(fields@);
        let mut offset: usize = 0;
        let mut i: usize = 0;
        while i < fields.len()
            invariant
                i <= ts.len(),
                ts == field_types(fields@),
                ts.len() == fields@.len(),
                self.layout_from(ts, i as int, offset, fuel as nat) == self.layout_from(ts, 0, 0, fuel as nat),
            decreases fields.len() - i,
        {
            assert(ts[i as int] == fields@[i as int].1);
            proof {
                broadcast use vstd::std_specs::vec::axiom_vec_decreases_to_view;
                assert(decreases_to!(fields => fields@));
                assert(decreases_to!(fields@ => fields@[i as int]));
                assert(decreases_to!(fields@[i as int] => fields@[i as int].1));
            }
            let size = self.size_with(&fields[i].1, fuel);
            let align = self.align_with(&fields[i].1, fuel);
            match (size, align) {
                (Some(size), Some(align)) => match align_up(offset, align) {
                    Some(start) => {
                        if size > usize::MAX - start {
                            return None;
                        }
                        offset = start + size;
                    },
                    None => return None,
                },
                _ => return None,
            }
            i = i + 1;
        }
        Some(offset)
    }

    /// The alignment of a type, entering at most `fuel` shapes.
    fn align_with(&self, t: &OnuType, fuel: usize) -> (r: Option<usize>)
        ensures
            r == self.align_spec(*t, fuel as nat),
        decreases fuel, *t, 0int,
    {
        match t {
            OnuType::I8 | OnuType::U8 | OnuType::Boolean => Some(1),
            OnuType::I16 | OnuType::U16 => Some(2),
            OnuType::I32 | OnuType::U32 | OnuType::F32 => Some(4),
            OnuType::I64 | OnuType::U64 | OnuType::F64 | OnuType::Ptr => Some(8),
            OnuType::I128 | OnuType::U128 => Some(16),
            OnuType::WideInt(bits) => wide_bytes(*bits),
            OnuType::Strings => Some(8),
            OnuType::Matrix => Some(8),
            OnuType::Nothing => Some(1),
            OnuType::Tuple(xs) => self.max_align_of_list(xs, fuel),
            OnuType::Shape(name) => match self.get_shape(name.as_str()) {
                Some(def) => if fuel == 0 {
                    None
                } else {
                    self.max_align_of_fields(&def.fields, fuel - 1)
                },
                None => Some(8),
            },
            OnuType::Array(_) | OnuType::HashMap(_, _) | OnuType::Tree(_) => Some(8),
        }
    }

    /// The end offset of laying a list of types out one after another.
    fn layout_of_list(&self, ts: &Vec<OnuType>, fuel: usize) -> (r: Option<usize>)
        ensures
            r == self.layout_from(ts@, 0, 0, fuel as nat),
        decreases fuel, ts, 1int,
    {
        let mut offset: usize = 0;
        let mut i: usize = 0;
        while i < ts.len()
            invariant
                i <= ts@.len(),
                self.layout_from(ts@, i as int, offset, fuel as nat) == self.layout_from(ts@, 0, 0, fuel as nat),
            decreases ts.len() - i,
        {
            proof {
                broadcast use vstd::std_specs::vec::axiom_vec_decreases_to_view;
                assert(decreases_to!(ts => ts@));
            }
            let size = self.size_with(&ts[i], fuel);
            let align = self.align_with(&ts[i], fuel);
            match (size, align) {
                (Some(size), Some(align)) => match align_up(offset, align) {
                    Some(start) => {
                        if size > usize::MAX - start {
                            return None;
                        }
                        offset = start + size;
                    },
                    None => return None,
                },
                _ => return None,
            }
            i = i + 1;
        }
        Some(offset)
    }

    /// The size of a type, entering at most `fuel` shapes.
    fn size_with(&self, t: &OnuType, fuel: usize) -> (r: Option<usize>)
        ensures
            r == self.size_spec(*t, fuel as nat),
        decreases fuel, *t, 0int,
    {
        match t {
            OnuType::I8 | OnuType::U8 | OnuType::Boolean => Some(1),
            OnuType::I16 | OnuType::U16 => Some(2),
            OnuType::I32 | OnuType::U32 | OnuType::F32 => Some(4),
            OnuType::I64 | OnuType::U64 | OnuType::F64 | OnuType::Ptr => Some(8),
            OnuType::I128 | OnuType::U128 => Some(16),
            OnuType::WideInt(bits) => wide_bytes(*bits),
            OnuType::Strings => Some(24),
            OnuType::Matrix => Some(8),
            OnuType::Nothing => Some(0),
            OnuType::Tuple(xs) => {
                match self.layout_of_list(xs, fuel) {
                    Some(end) => match self.align_with(t, fuel) {
                        Some(a) => align_up(end, a),
                        None => None,
                    },
                    None => None,
                }
            },
            OnuType::Shape(name) => match self.get_shape(name.as_str()) {
                Some(def) => if fuel == 0 {
                    None
                } else {
                    match self.layout_of_fields(&def.fields, fuel - 1) {
                        Some(end) => match self.align_with(t, fuel) {
                            Some(a) => align_up(end, a),
                            None => None,
                        },
                        None => None,
                    }
                },
                None => Some(8),
            },
            OnuType::Array(_) | OnuType::HashMap(_, _) | OnuType::Tree(_) => Some(8),
        }
    }

    /// Whether the layout of a type can be computed: no shape contains
    /// itself and no size exceeds the address space.
    pub open spec fn has_layout(&self, t: OnuType) -> bool {
        self.size_spec(t, self.layout_fuel()) is Some && self.align_spec(t, self.layout_fuel()) is Some
    }

    /// The size in bytes of a type whose layout can be computed.
    pub open spec fn spec_size_of(&self, t: OnuType) -> usize {
        self.size_spec(t, self.layout_fuel()).unwrap()
    }

    /// Whether the layout of a type can be computed (see `has_layout`).
    pub fn layout_known(&self, t: &OnuType) -> (r: bool)
        ensures
            r == self.has_layout(*t),
    {
        self.size_with(t, self.shapes.len()).is_some() && self.align_with(t, self.shapes.len()).is_some()
    }

    /// The size in bytes of a type, with C-style alignment padding for
    /// tuples and shapes; an undefined shape counts as a pointer (8 bytes).
    pub fn size_of(&self, typ: &OnuType) -> (r: usize)
        requires
            self.has_layout(*typ),
        ensures
            r == self.size_spec(*typ, self.layout_fuel()).unwrap(),
            r == self.spec_size_of(*typ),
    {
        self.size_with(typ, self.shapes.len()).unwrap()
    }

    /// The alignment requirement in bytes of a type.
    pub fn align_of(&self, typ: &OnuType) -> (r: usize)
        requires
            self.has_layout(*typ),
        ensures
            r == self.align_spec(*typ, self.layout_fuel()).unwrap(),
    {
        self.align_with(typ, self.shapes.len()).unwrap()
    }
}

impl BehaviorRegistryPort for RegistryService {
    fn get_signature(&self, name: &str) -> (r: Option<&BehaviorSignature>)
        ensures
            r matches Some(s) ==> self.symbols().spec_lookup(name@) == Some(*s),
            r is None ==> self.symbols().spec_lookup(name@) is None,
    {
        self.symbols.get_signature(name)
    }
}

/// A rounded offset is a multiple of the alignment.
proof fn lemma_align_up_multiple(offset: usize, align: usize)
    requires
        spec_align_up(offset, align) is Some,
    ensures
        spec_align_up(offset, align).unwrap() % align == 0,
        offset <= spec_align_up(offset, align).unwrap(),
{
    let x = offset + align - 1;
    let q = x / (align as int);
    assert(q * align <= x && x < q * align + align) by (nonlinear_arith)
        requires
            align > 0,
            q == x / (align as int),
    ;
    assert((q * align) % (align as int) == 0) by (nonlinear_arith)
        requires
            align > 0,
    ;
}

/// Rounding up to an alignment gives the least multiple of it that is not
/// below the offset.
pub proof fn lemma_align_up(offset: usize, align: usize)
    requires
        align > 0,
        offset + align - 1 <= usize::MAX,
    ensures
        spec_align_up(offset, align) matches Some(v) && v % align == 0 && offset <= v < offset + align,
{
    let x = offset + align - 1;
    let q = x / (align as int);
    assert(q * align <= x && x < q * align + align) by (nonlinear_arith)
        requires
            align > 0,
            q == x / (align as int),
    ;
    assert((q * align) % (align as int) == 0) by (nonlinear_arith)
        requires
            align > 0,
    ;
}

/// Laying out `ts[i..]` goes through `ts[i..k]` first: the layout of the
/// prefix ends where the rest begins.
proof fn lemma_layout_split(r: RegistryService, ts: Seq<OnuType>, i: int, k: int, off: usize, fuel: nat)
    requires
        0 <= i <= k <= ts.len(),
        r.layout_from(ts, i, off, fuel) is Some,
    ensures
        r.layout_from(ts.take(k), i, off, fuel) matches Some(e) && r.layout_from(ts, k, e, fuel) == r.layout_from(ts, i, off, fuel),
    decreases k - i,
{
    if i < k {
        let t2 = ts.take(k);
        assert(t2[i] == ts[i]);
        let size = r.size_spec(ts[i], fuel).unwrap();
        let align = r.align_spec(ts[i], fuel).unwrap();
        let start = spec_align_up(off, align).unwrap();
        lemma_layout_split(r, ts, i + 1, k, (start + size) as usize, fuel);
    }
}

/// A layout never ends before it starts.
proof fn lemma_layout_grows(r: RegistryService, ts: Seq<OnuType>, i: int, off: usize, fuel: nat)
    requires
        r.layout_from(ts, i, off, fuel) is Some,
    ensures
        off <= r.layout_from(ts, i, off, fuel).unwrap(),
    decreases ts.len() - i,
{
    if 0 <= i < ts.len() {
        let size = r.size_spec(ts[i], fuel).unwrap();
        let align = r.align_spec(ts[i], fuel).unwrap();
        lemma_align_up_multiple(off, align);
        let start = spec_align_up(off, align).unwrap();
        lemma_layout_grows(r, ts, i + 1, (start + size) as usize, fuel);
    }
}

/// C-style layout of tuples and shapes: every field starts at an offset
/// that is a multiple of its own alignment, and ends within the value.
pub proof fn law_fields_aligned(r: RegistryService, t: OnuType, k: int)
    requires
        r.has_layout(t),
        r.layout_fields(t, r.layout_fuel()) matches Some(p) && 0 <= k < p.0.len(),
    ensures
        ({
            let (ts, f) = r.layout_fields(t, r.layout_fuel()).unwrap();
            &&& r.field_start(ts, k, f) matches Some(s)
            &&& s % r.align_spec(ts[k], f).unwrap() == 0
            &&& s + r.size_spec(ts[k], f).unwrap() <= r.spec_size_of(t)
        }),
{
    let fuel = r.layout_fuel();
    let (ts, f) = r.layout_fields(t, fuel).unwrap();
    assert(r.layout_from(ts, 0, 0, f) is Some);
    let end = r.layout_from(ts, 0, 0, f).unwrap();
    let a = r.align_spec(t, fuel).unwrap();
    assert(r.size_spec(t, fuel) == spec_align_up(end, a));
    lemma_align_up_multiple(end, a);
    lemma_layout_split(r, ts, 0, k, 0, f);
    let e = r.layout_from(ts.take(k), 0, 0, f).unwrap();
    let size = r.size_spec(ts[k], f).unwrap();
    let align = r.align_spec(ts[k], f).unwrap();
    lemma_align_up_multiple(e, align);
    let s = spec_align_up(e, align).unwrap();
    lemma_layout_grows(r, ts, k + 1, (s + size) as usize, f);
}

/// C-style layout: a tuple or shape ends right after its last field, padded
/// only up to its alignment: its size is at least where the last field
/// ends, and less than that plus the alignment.
pub proof fn law_size_is_last_field_end_padded(r: RegistryService, t: OnuType)
    requires
        r.has_layout(t),
        r.layout_fields(t, r.layout_fuel()) matches Some(p) && p.0.len() > 0,
        r.align_spec(t, r.layout_fuel()).unwrap() > 0,
    ensures
        ({
            let (ts, f) = r.layout_fields(t, r.layout_fuel()).unwrap();
            let last = ts.len() - 1;
            let end = r.field_start(ts, last, f).unwrap() + r.size_spec(ts[last], f).unwrap();
            &&& r.field_start(ts, last, f) is Some
            &&& end <= r.spec_size_of(t)
            &&& r.spec_size_of(t) < end + r.align_spec(t, r.layout_fuel()).unwrap()
        }),
{
    let fuel = r.layout_fuel();
    let (ts, f) = r.layout_fields(t, fuel).unwrap();
    let last = ts.len() - 1;
    assert(r.layout_from(ts, 0, 0, f) is Some);
    let total = r.layout_from(ts, 0, 0, f).unwrap();
    let a = r.align_spec(t, fuel).unwrap();
    assert(r.size_spec(t, fuel) == spec_align_up(total, a));
    lemma_layout_split(r, ts, 0, last, 0, f);
    let e = r.layout_from(ts.take(last), 0, 0, f).unwrap();
    let size = r.size_spec(ts[last], f).unwrap();
    let align = r.align_spec(ts[last], f).unwrap();
    let s0 = spec_align_up(e, align).unwrap();
    assert(r.layout_from(ts, last, e, f) == r.layout_from(ts, last + 1, (s0 + size) as usize, f));
    assert(total == s0 + size);
    lemma_align_up(total, a);
}

/// C-style layout: the size of every type whose layout can be computed is
/// a multiple of its alignment (where that alignment is not 0, which only
/// a zero-bit integer has), so that values of it can stand in an array.
pub proof fn law_size_is_multiple_of_alignment(r: RegistryService, t: OnuType)
    requires
        r.has_layout(t),
        r.align_spec(t, r.layout_fuel()).unwrap() > 0,
    ensures
        r.spec_size_of(t) % r.align_spec(t, r.layout_fuel()).unwrap() == 0,
{
    let fuel = r.layout_fuel();
    match t {
        OnuType::Tuple(xs) => {
            assert(r.layout_from(xs@, 0, 0, fuel) is Some);
            let end = r.layout_from(xs@, 0, 0, fuel).unwrap();
            let a = r.align_spec(t, fuel).unwrap();
            assert(r.size_spec(t, fuel) == spec_align_up(end, a));
            lemma_align_up_multiple(end, a);
        },
        OnuType::Shape(name) => {
            match r.spec_shape(name@) {
                Some(def) => {
                    assert(fuel > 0);
                    assert(r.layout_from(field_types(def.fields@), 0, 0, (fuel - 1) as nat) is Some);
                    let end = r.layout_from(field_types(def.fields@), 0, 0, (fuel - 1) as nat).unwrap();
                    let a = r.align_spec(t, fuel).unwrap();
                    assert(r.size_spec(t, fuel) == spec_align_up(end, a));
                    lemma_align_up_multiple(end, a);
                },
                None => {},
            }
        },
        OnuType::WideInt(bits) => {
            let b = spec_wide_bytes(bits).unwrap();
            assert(b % b == 0) by (nonlinear_arith)
                requires
                    b > 0,
            ;
        },
        _ => {},
    }
}

/// The size of a sized numeric primitive is the width its name gives: the
/// name is a letter followed by the number of bits (`i8` ... `u128`,
/// `f32`, `f64`), and the type takes, and is aligned to, that many bits in
/// bytes (four for `i32`, `u32` and `f32`).
#[verifier::spinoff_prover]
#[verifier::rlimit(60)]
pub proof fn law_primitive_width(r: RegistryService, name: Seq<char>, fuel: nat)
    requires
        name.len() >= 2,
        '0' <= name[1] <= '9',
        spec_primitive_named(name) is Some,
    ensures
        r.size_spec(spec_primitive_named(name).unwrap(), fuel) == Some((decimal_value(name.drop_first()) / 8) as usize),
        r.align_spec(spec_primitive_named(name).unwrap(), fuel) == Some((decimal_value(name.drop_first()) / 8) as usize),
        decimal_value(name.drop_first()) % 8 == 0,
{
    if name == "i8"@ {
        reveal_strlit("i8");
        let d = seq!['8'];
        assert(name.drop_first() =~= d);
        assert(decimal_value(d) == 8) by {
            reveal_with_fuel(decimal_value, 4);
        }
        assert(spec_primitive_named(name) == Some(OnuType::I8));
    } else if name == "i16"@ {
        reveal_strlit("i16");
        let d = seq!['1', '6'];
        assert(name.drop_first() =~= d);
        assert(decimal_value(d) == 16) by {
            reveal_with_fuel(decimal_value, 4);
        }
        assert(spec_primitive_named(name) == Some(OnuType::I16));
    } else if name == "i32"@ {
        reveal_strlit("i32");
        let d = seq!['3', '2'];
        assert(name.drop_first() =~= d);
        assert(decimal_value(d) == 32) by {
            reveal_with_fuel(decimal_value, 4);
        }
        assert(spec_primitive_named(name) == Some(OnuType::I32));
    } else if name == "i64"@ {
        reveal_strlit("i64");
        let d = seq!['6', '4'];
        assert(name.drop_first() =~= d);
        assert(decimal_value(d) == 64) by {
            reveal_with_fuel(decimal_value, 4);
        }
        assert(spec_primitive_named(name) == Some(OnuType::I64));
    } else if name == "i128"@ {
        reveal_strlit("i128");
        reveal_strlit("integer");
        let d = seq!['1', '2', '8'];
        assert(name.drop_first() =~= d);
        assert(decimal_value(d) == 128) by {
            reveal_with_fuel(decimal_value, 4);
        }
        assert(spec_primitive_named(name) == Some(OnuType::I128));
    } else if name == "u8"@ {
        reveal_strlit("u8");
        reveal_strlit("integer");
        let d = seq!['8'];
        assert(name.drop_first() =~= d);
        assert(decimal_value(d) == 8) by {
            reveal_with_fuel(decimal_value, 4);
        }
        assert(spec_primitive_named(name) == Some(OnuType::U8));
    } else if name == "u16"@ {
        reveal_strlit("u16");
        reveal_strlit("integer");
        let d = seq!['1', '6'];
        assert(name.drop_first() =~= d);
        assert(decimal_value(d) == 16) by {
            reveal_with_fuel(decimal_value, 4);
        }
        assert(spec_primitive_named(name) == Some(OnuType::U16));
    } else if name == "u32"@ {
        reveal_strlit("u32");
        reveal_strlit("integer");
        let d = seq!['3', '2'];
        assert(name.drop_first() =~= d);
        assert(decimal_value(d) == 32) by {
            reveal_with_fuel(decimal_value, 4);
        }
        assert(spec_primitive_named(name) == Some(OnuType::U32));
    } else if name == "u64"@ {
        reveal_strlit("u64");
        reveal_strlit("integer");
        let d = seq!['6', '4'];
        assert(name.drop_first() =~= d);
        assert(decimal_value(d) == 64) by {
            reveal_with_fuel(decimal_value, 4);
        }
        assert(spec_primitive_named(name) == Some(OnuType::U64));
    } else if name == "u128"@ {
        reveal_strlit("u128");
        reveal_strlit("integer");
        let d = seq!['1', '2', '8'];
        assert(name.drop_first() =~= d);
        assert(decimal_value(d) == 128) by {
            reveal_with_fuel(decimal_value, 4);
        }
        assert(spec_primitive_named(name) == Some(OnuType::U128));
    } else if name == "f32"@ {
        reveal_strlit("f32");
        reveal_strlit("integer");
        let d = seq!['3', '2'];
        assert(name.drop_first() =~= d);
        assert(decimal_value(d) == 32) by {
            reveal_with_fuel(decimal_value, 4);
        }
        assert(spec_primitive_named(name) == Some(OnuType::F32));
    } else if name == "f64"@ {
        reveal_strlit("f64");
        reveal_strlit("integer");
        let d = seq!['6', '4'];
        assert(name.drop_first() =~= d);
        assert(decimal_value(d) == 64) by {
            reveal_with_fuel(decimal_value, 4);
        }
        assert(spec_primitive_named(name) == Some(OnuType::F64));
    } else {
        reveal_strlit("integer");
        reveal_strlit("float");
        reveal_strlit("boolean");
        reveal_strlit("string");
        reveal_strlit("strings");
        reveal_strlit("nothing");
        reveal_strlit("matrix");
        assert(false);
    }
}

} // verus!
