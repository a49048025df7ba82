//! Where the tensors of a file lie, and how they are read.
use vstd::hash_map::StringHashMap;
use vstd::prelude::*;
use crate::json::{Json, Tree};
use crate::model::config::Config;
use crate::text::{
    chars_of, decimal, lemma_decimal, parse_usize, same_text, slice_chars, text_of, unsigned_value,
};

verus! {

// ---------------------------------------------------------------- the header
/// Why a file has no header.
#[derive(Clone, Copy, Debug, PartialEq, Eq, Structural)]
pub enum HeaderError {
    /// it does not begin with `FASTGEM1`
    NotFgm,
    /// it ends before its header does
    Truncated,
}

/// The eight bytes that a file begins with.
pub open spec fn magic() -> Seq<u8> {
    seq![70u8, 65u8, 83u8, 84u8, 71u8, 69u8, 77u8, 49u8]
}

/// The number that four bytes are, the lowest first.
pub open spec fn le32(b: Seq<u8>) -> int {
    b[0] + 0x100 * b[1] + 0x1_0000 * b[2] + 0x100_0000 * b[3]
}

/// Where the header of a file lies: its length stands behind the first eight
/// bytes.
pub open spec fn header(b: Seq<u8>) -> Result<(int, int), HeaderError> {
    if b.len() < 8 || b.take(8) != magic() {
        Err(HeaderError::NotFgm)
    } else if b.len() < 12 || b.len() < 12 + le32(b.subrange(8, 12)) {
        Err(HeaderError::Truncated)
    } else {
        Ok((12, 12 + le32(b.subrange(8, 12))))
    }
}

/// Where the header of a file lies.
pub fn header_span(b: &[u8]) -> (r: Result<(usize, usize), HeaderError>)
    ensures
        match r {
            Ok(p) => header(b@) == Ok::<(int, int), HeaderError>((p.0 as int, p.1 as int)),
            Err(e) => header(b@) == Err::<(int, int), HeaderError>(e),
        },
{
    if b.len() < 8 {
        return Err(HeaderError::NotFgm);
    }
    let first = b[0] == 70 && b[1] == 65 && b[2] == 83 && b[3] == 84 && b[4] == 71 && b[5] == 69
        && b[6] == 77 && b[7] == 49;
    proof {
        if first {
            assert(b@.take(8) =~= magic());
        } else if b@.take(8) == magic() {
            assert(forall|i: int| 0 <= i < 8 ==> b@.take(8)[i] == #[trigger] b@[i]);
            assert(magic()[0] == 70 && magic()[1] == 65 && magic()[2] == 83 && magic()[3] == 84
                && magic()[4] == 71 && magic()[5] == 69 && magic()[6] == 77 && magic()[7] == 49);
            assert(b@[0] == 70 && b@[1] == 65 && b@[2] == 83 && b@[3] == 84);
            assert(b@[4] == 71 && b@[5] == 69 && b@[6] == 77 && b@[7] == 49);
        }
    }
    if !first {
        return Err(HeaderError::NotFgm);
    }
    if b.len() < 12 {
        return Err(HeaderError::Truncated);
    }
    let len: u64 = b[8] as u64 + 0x100 * (b[9] as u64) + 0x1_0000 * (b[10] as u64) + 0x100_0000 * (
    b[11] as u64);
    assert(len == le32(b@.subrange(8, 12)));
    if ((b.len() - 12) as u64) < len {
        return Err(HeaderError::Truncated);
    }
    Ok((12, 12 + len as usize))
}

/// A length as four bytes, the lowest first.
pub open spec fn len_bytes(n: u32) -> Seq<u8> {
    seq![
        (n % 256) as u8,
        (n / 256 % 256) as u8,
        (n / 65536 % 256) as u8,
        (n / 16777216) as u8,
    ]
}

/// The bytes of a file: the word `FASTGEM1`, the length of its header, the header,
/// and what is behind it.
pub open spec fn whole_file(n: u32, text: Seq<u8>, rest: Seq<u8>) -> Seq<u8> {
    "FASTGEM1"@.map_values(|c: char| c as u8) + len_bytes(n) + text + rest
}

proof fn lemma_len_bytes(n: u32)
    ensures
        len_bytes(n).len() == 4,
        le32(len_bytes(n)) == n,
{
    let a = n as int % 256;
    let b = n as int / 256 % 256;
    let c = n as int / 65536 % 256;
    let d = n as int / 16777216;
    assert(0 <= d < 256);
    assert(a + 256 * b + 65536 * c + 16777216 * d == n);
}

proof fn lemma_word()
    ensures
        "FASTGEM1"@.map_values(|c: char| c as u8) == magic(),
{
    reveal_strlit("FASTGEM1");
    assert("FASTGEM1"@.map_values(|c: char| c as u8) =~= magic());
}

/// A file that begins with its eight bytes and a length, the lowest byte first, has
/// a header of just that length behind them; cut anywhere before its end, it has
/// none.
pub proof fn law_headers_are_found(n: u32, text: Seq<u8>, rest: Seq<u8>, cut: int)
    requires
        text.len() == n,
    ensures
        header(whole_file(n, text, rest)) matches Ok(p) && whole_file(n, text, rest).subrange(
            p.0,
            p.1,
        ) == text,
        0 <= cut < 12 + n ==> header(whole_file(n, text, rest).take(cut)) is Err,
        8 <= cut < 12 + n ==> header(whole_file(n, text, rest).take(cut)) == Err::<
            (int, int),
            HeaderError,
        >(HeaderError::Truncated),
{
    let len = len_bytes(n);
    lemma_word();
    lemma_len_bytes(n);
    let b = magic() + len + text + rest;
    assert(whole_file(n, text, rest) == b);
    assert(b.take(8) =~= magic());
    assert(b.subrange(8, 12) =~= len);
    assert(b.subrange(12, 12 + n) =~= text);
    if 8 <= cut < 12 + n {
        let c = b.take(cut);
        assert(c.take(8) =~= magic());
        if cut >= 12 {
            assert(c.subrange(8, 12) =~= len);
        }
    }
}

// ---------------------------------------------------------------- tensors
/// What the header says of a tensor.
pub struct TensorEntry {
    pub dtype: String,
    pub shape: Vec<usize>,
    pub offset: usize,
    pub nbytes: usize,
    pub meta: Json,
}

/// Some bytes of the file.
#[derive(Clone, Copy, Debug, PartialEq, Eq, Structural)]
pub struct Span {
    pub start: usize,
    pub end: usize,
}

/// Why a tensor cannot be read.
pub enum TensorError {
    /// there is none of this name
    Missing(String),
    /// its bytes lie outside the file
    OutOfFile(String),
    /// it has less than two dimensions
    NotAMatrix(String),
    /// no product reads this type
    NotLinear { name: String, dtype: String },
    /// no row can be gathered from this type
    NotATable { name: String, dtype: String },
}

/// A quantised linear weight: where its bytes and its scales lie, and the
/// geometry that the kernel needs.
#[derive(Clone, Copy, Debug, PartialEq, Eq, Structural)]
pub struct QLinear {
    pub bits: u32,
    pub n: usize,
    pub k: usize,
    pub data: Span,
    pub scale: Span,
    /// the columns that share a scale, or 0 where each row has one
    pub group: usize,
    /// the Hadamard block folded into this weight, or 0
    pub hadamard: usize,
}

/// A weight, and its int8 twin where the file has one.
pub struct Dual {
    pub primary: QLinear,
    pub twin: Option<QLinear>,
}

/// A row-major quantised table that rows are gathered from.
#[derive(Clone, Copy, Debug, PartialEq, Eq, Structural)]
pub struct Table {
    pub bits: u32,
    pub k: usize,
    pub data: Span,
    pub scale: Span,
}

/// What is known of why a tensor cannot be read.
pub enum Fault {
    Missing(Seq<char>),
    OutOfFile(Seq<char>),
    NotAMatrix(Seq<char>),
    NotLinear(Seq<char>, Seq<char>),
    NotATable(Seq<char>, Seq<char>),
}

impl TensorError {
    /// What the error says.
    pub open spec fn fault(self) -> Fault {
        match self {
            TensorError::Missing(n) => Fault::Missing(n@),
            TensorError::OutOfFile(n) => Fault::OutOfFile(n@),
            TensorError::NotAMatrix(n) => Fault::NotAMatrix(n@),
            TensorError::NotLinear { name, dtype } => Fault::NotLinear(name@, dtype@),
            TensorError::NotATable { name, dtype } => Fault::NotATable(name@, dtype@),
        }
    }

    /// The message.
    pub fn message(&self) -> (m: String)
        ensures
            m@ == (match self.fault() {
                Fault::Missing(n) => "missing tensor "@ + n,
                Fault::OutOfFile(n) => "tensor "@ + n + " lies outside the file"@,
                Fault::NotAMatrix(n) => "tensor "@ + n + " is not a matrix"@,
                Fault::NotLinear(n, d) => "tensor "@ + n + " has non-linear dtype "@ + d,
                Fault::NotATable(n, d) => "tensor "@ + n + " is not a gather table ("@ + d + ")"@,
            }),
    {
        match self {
            TensorError::Missing(n) => {
                let mut m = "missing tensor ".to_owned();
                m.append(n.as_str());
                m
            },
            TensorError::OutOfFile(n) => {
                let mut m = "tensor ".to_owned();
                m.append(n.as_str());
                m.append(" lies outside the file");
                m
            },
            TensorError::NotAMatrix(n) => {
                let mut m = "tensor ".to_owned();
                m.append(n.as_str());
                m.append(" is not a matrix");
                m
            },
            TensorError::NotLinear { name, dtype } => {
                let mut m = "tensor ".to_owned();
                m.append(name.as_str());
                m.append(" has non-linear dtype ");
                m.append(dtype.as_str());
                m
            },
            TensorError::NotATable { name, dtype } => {
                let mut m = "tensor ".to_owned();
                m.append(name.as_str());
                m.append(" is not a gather table (");
                m.append(dtype.as_str());
                m.append(")");
                m
            },
        }
    }
}

/// The name of a tensor's scales.
pub open spec fn scale_of(name: Seq<char>) -> Seq<char> {
    name + ".scale"@
}

/// The name of a tensor's int8 twin.
pub open spec fn twin_of(name: Seq<char>) -> Seq<char> {
    name + ".i8"@
}

fn scale_name(name: &str) -> (s: String)
    ensures
        s@ == scale_of(name@),
{
    let mut s = name.to_owned();
    s.append(".scale");
    s
}

fn twin_name(name: &str) -> (s: String)
    ensures
        s@ == twin_of(name@),
{
    let mut s = name.to_owned();
    s.append(".i8");
    s
}

/// A number of a tensor's metadata.
pub open spec fn meta_number(t: Tree, key: Seq<char>, default: usize) -> usize {
    match t.field(key) {
        Some(v) => match v.uint() {
            Some(n) => n as usize,
            None => default,
        },
        None => default,
    }
}

fn meta_usize(j: &Json, key: &str, default: usize) -> (n: usize)
    ensures
        n == meta_number(j.tree(), key@, default),
{
    match j.get(key) {
        Some(v) => match v.as_u64() {
            Some(n) => n as usize,
            None => default,
        },
        None => default,
    }
}

/// The bytes of all tensors together.
pub open spec fn sum_bytes(s: Seq<(String, TensorEntry)>) -> int
    decreases s.len(),
{
    if s.len() == 0 {
        0
    } else {
        sum_bytes(s.drop_last()) + s.last().1.nbytes
    }
}

proof fn lemma_sum_part(s: Seq<(String, TensorEntry)>, n: int)
    requires
        0 <= n <= s.len(),
    ensures
        0 <= sum_bytes(s.take(n)) <= sum_bytes(s),
    decreases s.len(),
{
    if n < s.len() {
        lemma_sum_part(s.drop_last(), n);
        assert(s.drop_last().take(n) =~= s.take(n));
    } else {
        assert(s.take(n) =~= s);
        if n > 0 {
            lemma_sum_part(s.drop_last(), n - 1);
            assert(s.drop_last().take(n - 1) =~= s.drop_last());
        }
    }
}

/// Whether no two tensors have one name.
pub open spec fn distinct_names(s: Seq<(String, TensorEntry)>) -> bool {
    forall|i: int, j: int|
        0 <= i < j < s.len() ==> (#[trigger] s[i]).0@ != (#[trigger] s[j]).0@
}

/// Where the tensors of a file lie.
pub struct Directory {
    entries: Vec<(String, TensorEntry)>,
    places: StringHashMap<usize>,
    size: usize,
}

/// A mapped model: its shape, and where its tensors lie.
pub struct Model {
    pub cfg: Config,
    pub dir: Directory,
}

impl Model {
    /// The tensors, in the order of the header.
    pub closed spec fn tensors(&self) -> Seq<(String, TensorEntry)> {
        self.dir.entries@
    }

    /// The length of the file.
    pub closed spec fn file_len(&self) -> usize {
        self.dir.size
    }

    /// Whether entry `i` is the tensor of a name.
    pub open spec fn is_entry(&self, name: Seq<char>, i: int) -> bool {
        0 <= i < self.tensors().len() && self.tensors()[i].0@ == name
    }

    /// Whether there is a tensor of a name.
    pub open spec fn named(&self, name: Seq<char>) -> bool {
        exists|i: int| self.is_entry(name, i)
    }

    /// The tensor of a name.
    pub open spec fn tensor(&self, name: Seq<char>) -> TensorEntry {
        self.tensors()[choose|i: int| self.is_entry(name, i)].1
    }

    /// Whether the names lead to their tensors, each to its own.
    pub closed spec fn wf(&self) -> bool {
        &&& distinct_names(self.dir.entries@)
        &&& forall|name: Seq<char>|
            #![trigger self.dir.places@.contains_key(name)]
            self.dir.places@.contains_key(name) ==> self.is_entry(name, self.dir.places@[name] as int)
        &&& forall|i: int|
            0 <= i < self.dir.entries@.len() ==> self.dir.places@.contains_key(
                (#[trigger] self.dir.entries@[i]).0@,
            )
    }

    /// The bytes of a tensor, if it can be read.
    pub open spec fn bytes_of(&self, name: Seq<char>) -> Result<Span, Fault> {
        if !self.named(name) {
            Err(Fault::Missing(name))
        } else {
            let e = self.tensor(name);
            if e.offset + e.nbytes <= self.file_len() {
                Ok(Span { start: e.offset, end: (e.offset + e.nbytes) as usize })
            } else {
                Err(Fault::OutOfFile(name))
            }
        }
    }

    /// A quantised linear, if the tensor is one.
    pub open spec fn linear_of(&self, name: Seq<char>) -> Result<QLinear, Fault> {
        if !self.named(name) {
            Err(Fault::Missing(name))
        } else {
            let e = self.tensor(name);
            let four = e.dtype@ == "q4g"@;
            if e.shape@.len() < 2 {
                Err(Fault::NotAMatrix(name))
            } else if !four && e.dtype@ != "q8c"@ {
                Err(Fault::NotLinear(name, e.dtype@))
            } else {
                match self.bytes_of(name) {
                    Err(f) => Err(f),
                    Ok(data) => match self.bytes_of(scale_of(name)) {
                        Err(f) => Err(f),
                        Ok(scale) => Ok(
                            QLinear {
                                bits: if four {
                                    4
                                } else {
                                    8
                                },
                                n: e.shape@[0],
                                k: e.shape@[1],
                                data,
                                scale,
                                group: if four {
                                    meta_number(e.meta.tree(), "group"@, 64)
                                } else {
                                    0
                                },
                                hadamard: meta_number(e.meta.tree(), "hadamard"@, 0),
                            },
                        ),
                    },
                }
            }
        }
    }

    /// Whether these are a linear and its int8 twin, if it has one.
    pub open spec fn has_dual(&self, name: Seq<char>, d: Dual) -> bool {
        &&& self.linear_of(name) == Ok::<QLinear, Fault>(d.primary)
        &&& match d.twin {
            Some(t) => self.named(twin_of(name)) && self.linear_of(twin_of(name)) == Ok::<
                QLinear,
                Fault,
            >(t),
            None => !self.named(twin_of(name)),
        }
    }

    /// A table to gather rows from, if the tensor is one.
    pub open spec fn table_of(&self, name: Seq<char>) -> Result<Table, Fault> {
        if !self.named(name) {
            Err(Fault::Missing(name))
        } else {
            let e = self.tensor(name);
            let eight = e.dtype@ == "q8r"@;
            if e.shape@.len() < 2 {
                Err(Fault::NotAMatrix(name))
            } else if !eight && e.dtype@ != "q4r"@ {
                Err(Fault::NotATable(name, e.dtype@))
            } else {
                match self.bytes_of(name) {
                    Err(f) => Err(f),
                    Ok(data) => match self.bytes_of(scale_of(name)) {
                        Err(f) => Err(f),
                        Ok(scale) => Ok(
                            Table {
                                bits: if eight {
                                    8
                                } else {
                                    4
                                },
                                k: e.shape@[1],
                                data,
                                scale,
                            },
                        ),
                    },
                }
            }
        }
    }

    proof fn lemma_one_entry(&self, name: Seq<char>, i: int)
        requires
            self.wf(),
            self.is_entry(name, i),
        ensures
            self.named(name),
            self.tensor(name) == self.tensors()[i].1,
    {
        let j = choose|j: int| self.is_entry(name, j);
        assert(self.is_entry(name, j));
        assert(self.dir.entries@[i].0@ == self.dir.entries@[j].0@);
    }

    /// A model of the shape `cfg` in a file of `size` bytes.
    pub fn new(cfg: Config, entries: Vec<(String, TensorEntry)>, size: usize) -> (m: Model)
        requires
            distinct_names(entries@),
        ensures
            m.wf(),
            m.cfg == cfg,
            m.tensors() == entries@,
            m.file_len() == size,
    {
        let mut places: StringHashMap<usize> = StringHashMap::new();
        let mut i: usize = 0;
        while i < entries.len()
            invariant
                i <= entries@.len(),
                forall|name: Seq<char>| #[trigger]
                    places@.contains_key(name) ==> {
                        &&& places@[name] < i
                        &&& entries@[places@[name] as int].0@ == name
                    },
                forall|k: int|
                    0 <= k < i ==> places@.contains_key((#[trigger] entries@[k]).0@),
            decreases entries@.len() - i,
        {
            places.insert(entries[i].0.clone(), i);
            i += 1;
        }
        let m = Model { cfg, dir: Directory { entries, places, size } };
        assert forall|name: Seq<char>|
            #![trigger m.dir.places@.contains_key(name)]
            m.dir.places@.contains_key(name) implies m.is_entry(name, m.dir.places@[name] as int) by {}
        m
    }

    /// The tensor of a name.
    pub fn entry(&self, name: &str) -> (r: Option<&TensorEntry>)
        requires
            self.wf(),
        ensures
            match r {
                Some(e) => self.named(name@) && *e == self.tensor(name@),
                None => !self.named(name@),
            },
    {
        match self.dir.places.get(name) {
            Some(i) => {
                proof {
                    self.lemma_one_entry(name@, *i as int);
                }
                Some(&self.dir.entries[*i].1)
            },
            None => {
                proof {
                    assert forall|i: int| !self.is_entry(name@, i) by {
                        if self.is_entry(name@, i) {
                            assert(self.dir.places@.contains_key(self.dir.entries@[i].0@));
                        }
                    }
                }
                None
            },
        }
    }

    /// Whether there is a tensor of a name.
    pub fn has(&self, name: &str) -> (r: bool)
        requires
            self.wf(),
        ensures
            r == self.named(name@),
    {
        self.entry(name).is_some()
    }

    /// The shape of a tensor.
    pub fn shape(&self, name: &str) -> (s: &Vec<usize>)
        requires
            self.wf(),
            self.named(name@),
        ensures
            *s == self.tensor(name@).shape,
    {
        match self.entry(name) {
            Some(e) => &e.shape,
            None => vstd::pervasive::unreached(),
        }
    }

    /// The bytes of a tensor.
    pub fn raw(&self, name: &str) -> (r: Result<Span, TensorError>)
        requires
            self.wf(),
        ensures
            match r {
                Ok(s) => self.bytes_of(name@) == Ok::<Span, Fault>(s),
                Err(e) => self.bytes_of(name@) == Err::<Span, Fault>(e.fault()),
            },
    {
        match self.entry(name) {
            None => Err(TensorError::Missing(name.to_owned())),
            Some(e) => if e.nbytes <= self.dir.size && e.offset <= self.dir.size - e.nbytes {
                Ok(Span { start: e.offset, end: e.offset + e.nbytes })
            } else {
                Err(TensorError::OutOfFile(name.to_owned()))
            },
        }
    }

    fn data_and_scale(&self, name: &str) -> (r: Result<(Span, Span), TensorError>)
        requires
            self.wf(),
        ensures
            match r {
                Ok(p) => self.bytes_of(name@) == Ok::<Span, Fault>(p.0) && self.bytes_of(
                    scale_of(name@),
                ) == Ok::<Span, Fault>(p.1),
                Err(e) => self.bytes_of(name@) == Err::<Span, Fault>(e.fault()) || (self.bytes_of(
                    name@,
                ) is Ok && self.bytes_of(scale_of(name@)) == Err::<Span, Fault>(e.fault())),
            },
    {
        match self.raw(name) {
            Err(e) => Err(e),
            Ok(data) => match self.raw(scale_name(name).as_str()) {
                Err(e) => Err(e),
                Ok(scale) => Ok((data, scale)),
            },
        }
    }

    /// A quantised linear by name: its type and the layout of its scales.
    pub fn linear(&self, name: &str) -> (r: Result<QLinear, TensorError>)
        requires
            self.wf(),
        ensures
            match r {
                Ok(q) => self.linear_of(name@) == Ok::<QLinear, Fault>(q),
                Err(e) => self.linear_of(name@) == Err::<QLinear, Fault>(e.fault()),
            },
    {
        let e = match self.entry(name) {
            None => return Err(TensorError::Missing(name.to_owned())),
            Some(e) => e,
        };
        if e.shape.len() < 2 {
            return Err(TensorError::NotAMatrix(name.to_owned()));
        }
        let four = same_text(e.dtype.as_str(), "q4g");
        if !four && !same_text(e.dtype.as_str(), "q8c") {
            return Err(TensorError::NotLinear { name: name.to_owned(), dtype: e.dtype.clone() });
        }
        match self.data_and_scale(name) {
            Err(e) => Err(e),
            Ok((data, scale)) => Ok(
                QLinear {
                    bits: if four {
                        4
                    } else {
                        8
                    },
                    n: e.shape[0],
                    k: e.shape[1],
                    data,
                    scale,
                    group: if four {
                        meta_usize(&e.meta, "group", 64)
                    } else {
                        0
                    },
                    hadamard: meta_usize(&e.meta, "hadamard", 0),
                },
            ),
        }
    }

    /// A linear, and its int8 twin where the file has one. The twin of `name`
    /// is `name.i8`; a file without it gives the primary alone.
    pub fn dual(&self, name: &str) -> (r: Result<Dual, TensorError>)
        requires
            self.wf(),
        ensures
            match r {
                Ok(d) => self.has_dual(name@, d),
                Err(e) => self.linear_of(name@) == Err::<QLinear, Fault>(e.fault()) || (
                self.linear_of(name@) is Ok && self.named(twin_of(name@)) && self.linear_of(
                    twin_of(name@),
                ) == Err::<QLinear, Fault>(e.fault())),
            },
    {
        let primary = match self.linear(name) {
            Err(e) => return Err(e),
            Ok(q) => q,
        };
        let alt = twin_name(name);
        if !self.has(alt.as_str()) {
            return Ok(Dual { primary, twin: None });
        }
        match self.linear(alt.as_str()) {
            Err(e) => Err(e),
            Ok(q) => Ok(Dual { primary, twin: Some(q) }),
        }
    }

    /// A row-major quantised table to gather rows from.
    pub fn gather(&self, name: &str) -> (r: Result<Table, TensorError>)
        requires
            self.wf(),
        ensures
            match r {
                Ok(t) => self.table_of(name@) == Ok::<Table, Fault>(t),
                Err(e) => self.table_of(name@) == Err::<Table, Fault>(e.fault()),
            },
    {
        let e = match self.entry(name) {
            None => return Err(TensorError::Missing(name.to_owned())),
            Some(e) => e,
        };
        if e.shape.len() < 2 {
            return Err(TensorError::NotAMatrix(name.to_owned()));
        }
        let eight = same_text(e.dtype.as_str(), "q8r");
        if !eight && !same_text(e.dtype.as_str(), "q4r") {
            return Err(TensorError::NotATable { name: name.to_owned(), dtype: e.dtype.clone() });
        }
        match self.data_and_scale(name) {
            Err(e) => Err(e),
            Ok((data, scale)) => Ok(
                Table {
                    bits: if eight {
                        8
                    } else {
                        4
                    },
                    k: e.shape[1],
                    data,
                    scale,
                },
            ),
        }
    }

    /// The bytes of all tensors together.
    pub fn total_bytes(&self) -> (n: usize)
        requires
            sum_bytes(self.tensors()) <= usize::MAX,
        ensures
            n == sum_bytes(self.tensors()),
    {
        let mut n: usize = 0;
        let mut i: usize = 0;
        while i < self.dir.entries.len()
            invariant
                i <= self.dir.entries@.len(),
                n == sum_bytes(self.dir.entries@.take(i as int)),
                sum_bytes(self.dir.entries@) <= usize::MAX,
            decreases self.dir.entries@.len() - i,
        {
            proof {
                lemma_sum_part(self.dir.entries@, i + 1);
                assert(self.dir.entries@.take(i + 1).drop_last() =~= self.dir.entries@.take(i as int));
            }
            n += self.dir.entries[i].1.nbytes;
            i += 1;
        }
        assert(self.dir.entries@.take(i as int) =~= self.dir.entries@);
        n
    }
}

/// What a linear or a table is read from lies in the file.
pub proof fn law_reads_stay_in_the_file(m: Model, name: Seq<char>)
    ensures
        m.linear_of(name) matches Ok(q) ==> q.data.start <= q.data.end <= m.file_len()
            && q.scale.start <= q.scale.end <= m.file_len(),
        m.table_of(name) matches Ok(t) ==> t.data.start <= t.data.end <= m.file_len()
            && t.scale.start <= t.scale.end <= m.file_len(),
{
}

/// Whether entry `i` of the header is a tensor of this name whose bytes lie in the
/// file.
pub open spec fn readable(m: Model, i: int, name: Seq<char>) -> bool {
    &&& 0 <= i < m.tensors().len()
    &&& m.tensors()[i].0@ == name
    &&& m.tensors()[i].1.offset + m.tensors()[i].1.nbytes <= m.file_len()
}

/// Whether a span is the bytes that entry `i` of the header states.
pub open spec fn spans(m: Model, i: int, s: Span) -> bool {
    s.start == m.tensors()[i].1.offset && s.end - s.start == m.tensors()[i].1.nbytes
}

/// Whether a number is what a field of a tensor's metadata says: the field itself
/// where it is a number, `default` where the metadata has no such number.
pub open spec fn says(e: TensorEntry, key: Seq<char>, default: int, n: int) -> bool {
    &&& e.meta.tree().field(key) is None ==> n == default
    &&& e.meta.tree().field(key) matches Some(v) ==> {
        &&& v.uint() is None ==> n == default
        &&& v.uint() matches Some(x) ==> x <= usize::MAX ==> n == x
    }
}

/// A matrix of one of the two linear types, with its scales in the file, is read as
/// the header states it: as many rows and columns as its shape, its own bytes and
/// those of its scales, and the Hadamard block that its metadata names, whatever
/// its type. Only a 4-bit weight has groups.
pub proof fn law_linears_are_as_the_header_says(m: Model, name: Seq<char>, i: int, j: int)
    requires
        m.wf(),
        readable(m, i, name),
        readable(m, j, name + ".scale"@),
        m.tensors()[i].1.shape@.len() >= 2,
        m.tensors()[i].1.dtype@ == "q4g"@ || m.tensors()[i].1.dtype@ == "q8c"@,
    ensures
        m.linear_of(name) matches Ok(q) && {
            let e = m.tensors()[i].1;
            &&& q.n == e.shape@[0]
            &&& q.k == e.shape@[1]
            &&& spans(m, i, q.data)
            &&& spans(m, j, q.scale)
            &&& says(e, "hadamard"@, 0, q.hadamard as int)
            &&& e.dtype@ == "q4g"@ ==> q.bits == 4 && says(e, "group"@, 64, q.group as int)
            &&& e.dtype@ == "q8c"@ ==> q.bits == 8 && q.group == 0
        },
{
    reveal_strlit("q4g");
    reveal_strlit("q8c");
    assert("q4g"@[1] != "q8c"@[1]);
    m.lemma_one_entry(name, i);
    m.lemma_one_entry(name + ".scale"@, j);
}

/// Nothing but the type of a tensor sets a 4-bit weight apart from an 8-bit one:
/// two linears of one shape and one metadata have the same rows, columns and
/// Hadamard block, also where their types differ.
pub proof fn law_types_share_their_geometry(
    a: Model,
    b: Model,
    x: Seq<char>,
    y: Seq<char>,
    i: int,
    j: int,
)
    requires
        a.wf(),
        b.wf(),
        a.is_entry(x, i),
        b.is_entry(y, j),
        a.tensors()[i].1.shape@ == b.tensors()[j].1.shape@,
        a.tensors()[i].1.meta == b.tensors()[j].1.meta,
        a.linear_of(x) is Ok,
        b.linear_of(y) is Ok,
    ensures
        a.linear_of(x)->Ok_0.n == b.linear_of(y)->Ok_0.n,
        a.linear_of(x)->Ok_0.k == b.linear_of(y)->Ok_0.k,
        a.linear_of(x)->Ok_0.hadamard == b.linear_of(y)->Ok_0.hadamard,
{
    a.lemma_one_entry(x, i);
    b.lemma_one_entry(y, j);
}

/// A matrix of one of the two row types, with its scales in the file, is gathered
/// from as the header states it.
pub proof fn law_tables_are_as_the_header_says(m: Model, name: Seq<char>, i: int, j: int)
    requires
        m.wf(),
        readable(m, i, name),
        readable(m, j, name + ".scale"@),
        m.tensors()[i].1.shape@.len() >= 2,
        m.tensors()[i].1.dtype@ == "q8r"@ || m.tensors()[i].1.dtype@ == "q4r"@,
    ensures
        m.table_of(name) matches Ok(t) && {
            let e = m.tensors()[i].1;
            &&& t.k == e.shape@[1]
            &&& spans(m, i, t.data)
            &&& spans(m, j, t.scale)
            &&& e.dtype@ == "q8r"@ ==> t.bits == 8
            &&& e.dtype@ == "q4r"@ ==> t.bits == 4
        },
{
    reveal_strlit("q8r");
    reveal_strlit("q4r");
    assert("q8r"@[1] != "q4r"@[1]);
    m.lemma_one_entry(name, i);
    m.lemma_one_entry(name + ".scale"@, j);
}

/// No tensor is both a linear and a table, and what has no name in the header, or
/// no scales, is neither.
pub proof fn law_a_tensor_is_read_one_way(m: Model, name: Seq<char>)
    requires
        m.wf(),
    ensures
        m.linear_of(name) is Err || m.table_of(name) is Err,
        (forall|i: int| 0 <= i < m.tensors().len() ==> (#[trigger] m.tensors()[i]).0@ != name) ==> {
            m.linear_of(name) is Err && m.table_of(name) is Err
        },
        (forall|i: int|
            0 <= i < m.tensors().len() ==> (#[trigger] m.tensors()[i]).0@ != name + ".scale"@) ==> {
            m.linear_of(name) is Err && m.table_of(name) is Err
        },
{
    reveal_strlit("q4g");
    reveal_strlit("q8c");
    reveal_strlit("q8r");
    reveal_strlit("q4r");
    assert("q4g"@[2] == 'g' && "q8c"@[2] == 'c' && "q8r"@[2] == 'r' && "q4r"@[2] == 'r');
}

// ---------------------------------------------------------------- which of the two weights
/// Which weight a product of `m` rows reads, where the file has both.
#[derive(Clone, Copy, Debug, PartialEq, Eq, Structural)]
pub enum WeightSel {
    Int4,
    Int8,
    /// int8 from this many rows on
    Auto(usize),
}

/// The number behind `auto:`, if a text is that and the number fits.
pub open spec fn auto_rows(t: Seq<char>) -> Option<nat> {
    if t.len() >= 5 && t.take(5) == "auto:"@ {
        match unsigned_value(t.skip(5)) {
            Some(n) => if n <= usize::MAX {
                Some(n)
            } else {
                None
            },
            None => None,
        }
    } else {
        None
    }
}

/// The choice that a text states; one that states none leaves `auto:16`, the
/// height of a tile.
pub open spec fn choice(s: Option<Seq<char>>) -> WeightSel {
    match s {
        None => WeightSel::Auto(16),
        Some(t) => if t == "int4"@ {
            WeightSel::Int4
        } else if t == "int8"@ {
            WeightSel::Int8
        } else {
            match auto_rows(t) {
                Some(n) => WeightSel::Auto(n as usize),
                None => WeightSel::Auto(16),
            }
        },
    }
}

impl WeightSel {
    /// The choice that the value of `FGM_WEIGHTS` states.
    pub fn from_text(s: Option<&str>) -> (r: WeightSel)
        ensures
            r == choice(
                match s {
                    Some(t) => Some(t@),
                    None => None,
                },
            ),
    {
        let t = match s {
            None => return WeightSel::Auto(16),
            Some(t) => t,
        };
        if same_text(t, "int4") {
            return WeightSel::Int4;
        }
        if same_text(t, "int8") {
            return WeightSel::Int8;
        }
        let cs = chars_of(t);
        if cs.len() >= 5 {
            let head = text_of(slice_chars(&cs, 0, 5).as_slice());
            let tail = text_of(slice_chars(&cs, 5, cs.len()).as_slice());
            assert(head@ =~= t@.take(5));
            assert(tail@ =~= t@.skip(5));
            if same_text(head.as_str(), "auto:") {
                if let Some(n) = parse_usize(tail.as_str()) {
                    return WeightSel::Auto(n);
                }
            }
        }
        WeightSel::Auto(16)
    }

    /// Whether a product of `m` rows reads the twin.
    pub fn takes_twin(&self, m: usize) -> (r: bool)
        ensures
            r == twin_chosen(*self, m as int),
    {
        match *self {
            WeightSel::Int4 => false,
            WeightSel::Int8 => true,
            WeightSel::Auto(rows) => m >= rows,
        }
    }
}

/// Whether a choice takes the twin for a product of `m` rows.
pub open spec fn twin_chosen(sel: WeightSel, m: int) -> bool {
    match sel {
        WeightSel::Int4 => false,
        WeightSel::Int8 => true,
        WeightSel::Auto(rows) => m >= rows,
    }
}

impl Dual {
    /// The weight that a product of `m` rows reads.
    pub open spec fn picked(&self, sel: WeightSel, m: int) -> QLinear {
        match self.twin {
            Some(t) => if twin_chosen(sel, m) {
                t
            } else {
                self.primary
            },
            None => self.primary,
        }
    }

    /// The weight that a product of `m` rows reads: a file without twins has
    /// only the primary to give.
    pub fn pick(&self, sel: WeightSel, m: usize) -> (q: QLinear)
        ensures
            q == self.picked(sel, m as int),
    {
        match self.twin {
            Some(t) => if sel.takes_twin(m) {
                t
            } else {
                self.primary
            },
            None => self.primary,
        }
    }
}

/// Every row count can be asked for by its number, and nothing is the height of a
/// tile.
pub proof fn law_row_counts_are_read_back(n: nat)
    requires
        n <= usize::MAX,
    ensures
        choice(Some("auto:"@ + decimal(n))) == WeightSel::Auto(n as usize),
        choice(Some("int4"@)) == WeightSel::Int4,
        choice(Some("int8"@)) == WeightSel::Int8,
        choice(None) == choice(Some("auto:"@ + decimal(16))),
{
    reveal_strlit("auto:");
    reveal_strlit("int4");
    reveal_strlit("int8");
    assert("int4"@[3] != "int8"@[3]);
    lemma_auto_rows(n);
    lemma_auto_rows(16);
}

proof fn lemma_auto_rows(n: nat)
    ensures
        auto_rows("auto:"@ + decimal(n)) == if n <= usize::MAX {
            Some(n)
        } else {
            None
        },
        "auto:"@ + decimal(n) != "int4"@,
        "auto:"@ + decimal(n) != "int8"@,
{
    reveal_strlit("auto:");
    reveal_strlit("int4");
    reveal_strlit("int8");
    let t = "auto:"@ + decimal(n);
    lemma_decimal(n);
    assert(t.take(5) =~= "auto:"@);
    assert(t.skip(5) =~= decimal(n));
    assert(decimal(n)[0] != '+');
    assert(t[0] == 'a' && "int4"@[0] == 'i' && "int8"@[0] == 'i');
}

/// The twin of a linear is the tensor that has its name and `.i8` behind it: there is a
/// twin exactly if there is such a tensor, and it is read as any other linear.
pub proof fn law_twins_are_found_by_name(m: Model, name: Seq<char>, d: Dual)
    requires
        m.has_dual(name, d),
    ensures
        d.twin is Some <==> exists|i: int|
            0 <= i < m.tensors().len() && (#[trigger] m.tensors()[i]).0@ == name + ".i8"@,
        d.twin matches Some(t) ==> m.linear_of(name + ".i8"@) == Ok::<QLinear, Fault>(t),
        m.linear_of(name) == Ok::<QLinear, Fault>(d.primary),
{
    if d.twin is Some {
        let i = choose|i: int| m.is_entry(name + ".i8"@, i);
        assert(m.tensors()[i].0@ == name + ".i8"@);
    }
    if exists|i: int| 0 <= i < m.tensors().len() && (#[trigger] m.tensors()[i]).0@ == name + ".i8"@ {
        let i = choose|i: int|
            0 <= i < m.tensors().len() && (#[trigger] m.tensors()[i]).0@ == name + ".i8"@;
        assert(m.is_entry(name + ".i8"@, i));
    }
}

/// A file without twins is read the same way whatever the choice.
pub proof fn law_choices_need_a_twin(d: Dual, sel: WeightSel, m: int)
    requires
        d.twin is None,
    ensures
        d.picked(sel, m) == d.primary,
{
}

/// `int4` is always the primary and `int8` always the twin; with `auto` the twin
/// takes over at just that many rows and stays for every taller product.
pub proof fn law_the_twin_takes_over_at_its_row_count(d: Dual, t: QLinear, rows: usize, m: int)
    requires
        d.twin == Some(t),
    ensures
        d.picked(WeightSel::Int4, m) == d.primary,
        d.picked(WeightSel::Int8, m) == t,
        d.picked(WeightSel::Auto(rows), rows as int) == t,
        d.picked(WeightSel::Auto(rows), rows - 1) == d.primary,
        m >= rows ==> d.picked(WeightSel::Auto(rows), m) == d.picked(WeightSel::Int8, m),
        m < rows ==> d.picked(WeightSel::Auto(rows), m) == d.picked(WeightSel::Int4, m),
{
}

/// The bytes of all tensors are those of each, added up in any order of reading.
pub proof fn law_bytes_add_up(a: Seq<(String, TensorEntry)>, b: Seq<(String, TensorEntry)>)
    ensures
        sum_bytes(a + b) == sum_bytes(a) + sum_bytes(b),
        b.len() == 1 ==> sum_bytes(b) == b[0].1.nbytes,
        b.len() == 0 ==> sum_bytes(b) == 0,
    decreases b.len(),
{
    if b.len() == 0 {
        assert(a + b =~= a);
    } else {
        assert((a + b).drop_last() =~= a + b.drop_last());
        law_bytes_add_up(a, b.drop_last());
    }
}

} // verus!
