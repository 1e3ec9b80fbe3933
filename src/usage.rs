use vstd::prelude::*;
use vstd::string::StrSliceExecFns;

verus! {

/// A sample encoding on the input or output stream.
#[derive(Clone, Copy, Debug, PartialEq, Eq, Structural)]
pub enum DataType {
    F32,
    I16,
    U8,
    S8,
}

impl DataType {
    /// Bytes taken by one component (one real value) in this encoding.
    pub open spec fn component_width_spec(self) -> nat {
        match self {
            DataType::F32 => 4,
            DataType::I16 => 2,
            DataType::U8 => 1,
            DataType::S8 => 1,
        }
    }

    /// Bytes taken by one real output sample.
    pub fn component_width(&self) -> (r: usize)
        ensures
            r == self.component_width_spec(),
    {
        match self {
            DataType::F32 => 4,
            DataType::I16 => 2,
            DataType::U8 => 1,
            DataType::S8 => 1,
        }
    }

    /// Bytes taken by one complex (in-phase, quadrature) input sample.
    pub fn iq_width(&self) -> (r: usize)
        ensures
            r == 2 * self.component_width_spec(),
    {
        2 * self.component_width()
    }

    /// The name by which the encoding is selected on the command line.
    pub fn name(&self) -> (r: &'static str)
        ensures
            r@ == self.name_spec(),
    {
        proof {
            reveal_strlit("f32");
            reveal_strlit("i16");
            reveal_strlit("u8");
            reveal_strlit("s8");
        }
        match self {
            DataType::F32 => "f32",
            DataType::I16 => "i16",
            DataType::U8 => "u8",
            DataType::S8 => "s8",
        }
    }

    pub open spec fn name_spec(self) -> Seq<char> {
        match self {
            DataType::F32 => seq!['f', '3', '2'],
            DataType::I16 => seq!['i', '1', '6'],
            DataType::U8 => seq!['u', '8'],
            DataType::S8 => seq!['s', '8'],
        }
    }

    /// The encoding that `name` selects, if any.
    pub open spec fn named(name: Seq<char>) -> Option<DataType> {
        if name == DataType::F32.name_spec() {
            Some(DataType::F32)
        } else if name == DataType::I16.name_spec() {
            Some(DataType::I16)
        } else if name == DataType::U8.name_spec() {
            Some(DataType::U8)
        } else if name == DataType::S8.name_spec() {
            Some(DataType::S8)
        } else {
            None
        }
    }

    /// Reads an encoding's command-line name: `s8`, `u8`, `i16` or `f32`.
    pub fn from_name(name: &str) -> (r: Option<DataType>)
        ensures
            r == DataType::named(name@),
    {
        let n = name.unicode_len();
        if n == 3 {
            let c0 = name.get_char(0);
            let c1 = name.get_char(1);
            let c2 = name.get_char(2);
            if c0 == 'f' && c1 == '3' && c2 == '2' {
                assert(name@ =~= DataType::F32.name_spec());
                return Some(DataType::F32);
            }
            if c0 == 'i' && c1 == '1' && c2 == '6' {
                assert(name@ =~= DataType::I16.name_spec());
                return Some(DataType::I16);
            }
        } else if n == 2 {
            let c0 = name.get_char(0);
            let c1 = name.get_char(1);
            if c0 == 'u' && c1 == '8' {
                assert(name@ =~= DataType::U8.name_spec());
                return Some(DataType::U8);
            }
            if c0 == 's' && c1 == '8' {
                assert(name@ =~= DataType::S8.name_spec());
                return Some(DataType::S8);
            }
        }
        None
    }
}

/// The demodulation scheme selected on the command line.
#[derive(Clone, Copy, Debug, PartialEq, Eq, Structural)]
pub enum Modulation {
    FM,
}

/// Options of the FM demodulator.
#[derive(Clone, Copy, Debug, PartialEq, Eq, Structural)]
pub struct FmModulationArgs {
    pub deviation: Option<u32>,
    pub squarewave: Option<bool>,
}

/// Every option of the program, as given; absent ones are `None`.
#[derive(Clone, Copy, Debug, PartialEq, Eq, Structural)]
pub struct CommandArgs {
    pub samplerate: Option<u32>,
    pub resamplerate: Option<u32>,
    pub inputtype: Option<DataType>,
    pub outputtype: Option<DataType>,
    pub bandwidth: Option<u32>,
    pub modulation: Option<Modulation>,
    pub fmargs: FmModulationArgs,
}

} // verus!
