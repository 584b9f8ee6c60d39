//! Liquidity pools and the row that persists one.
//!
//! A row has eight text columns: id, address, version, token0, token1, fee,
//! block_number, timestamp. Numbers are decimal, addresses hexadecimal, and
//! the version column holds the variant's integer tag.

use crate::address::{lemma_parse_text, Address};
use crate::decimal::{
    decimal_text, lemma_parse_i32_text, lemma_parse_i64_text, lemma_parse_u32_text,
    lemma_parse_u64_text, parse_i32, parse_i32_text, parse_i64, parse_i64_text, parse_u32,
    parse_u32_text, parse_u64, parse_u64_text, render_i64, render_u64,
};
use vstd::prelude::*;
use vstd::string::*;

verus! {

/// Protocol family of a pool.
#[derive(Debug, Clone, Copy, PartialEq, Eq, Structural)]
pub enum DexVariant {
    UniswapV2,
}

impl DexVariant {
    /// The integer tag under which the variant is persisted.
    pub open spec fn spec_num(&self) -> u8 {
        match self {
            DexVariant::UniswapV2 => 2,
        }
    }

    /// The variant that a persisted tag stands for. Every tag reads as the
    /// one variant there is.
    pub open spec fn spec_from_num(tag: i32) -> DexVariant {
        DexVariant::UniswapV2
    }

    /// The name of the variant.
    pub open spec fn spec_name(&self) -> Seq<char> {
        match self {
            DexVariant::UniswapV2 => seq!['U', 'n', 'i', 's', 'w', 'a', 'p', 'V', '2'],
        }
    }

    /// The integer tag under which the variant is persisted.
    #[verifier::when_used_as_spec(spec_num)]
    pub fn num(&self) -> (tag: u8)
        ensures
            tag == self.spec_num(),
    {
        match self {
            DexVariant::UniswapV2 => 2,
        }
    }

    /// The variant that a persisted tag stands for.
    pub fn from_num(tag: i32) -> (variant: DexVariant)
        ensures
            variant == DexVariant::spec_from_num(tag),
    {
        DexVariant::UniswapV2
    }

    /// The name of the variant.
    pub fn name(&self) -> (name: &'static str)
        ensures
            name@ == self.spec_name(),
    {
        match self {
            DexVariant::UniswapV2 => {
                proof {
                    reveal_strlit("UniswapV2");
                }
                let name = "UniswapV2";
                assert(name@ =~= self.spec_name());
                name
            },
        }
    }
}

/// A discovered liquidity pool. A record is written once and never changed.
#[derive(Debug, Clone, Copy, PartialEq, Eq)]
pub struct Pool {
    pub id: i64,
    pub address: Address,
    pub version: DexVariant,
    pub token0: Address,
    pub token1: Address,
    pub fee: u32,
    pub block_number: u64,
    pub timestamp: u64,
}

/// What is wrong with a column of a row.
#[derive(Debug, Clone, Copy, PartialEq, Eq, Structural)]
pub enum FieldFault {
    /// The row ends before the column.
    Missing,
    /// A numeric column does not hold a number of its range.
    NotNumeric,
    /// An address column does not hold an address.
    NotAddress,
}

/// Why a row is no pool.
#[derive(Debug, Clone, Copy, PartialEq, Eq, Structural)]
pub enum DecodeError {
    /// `column` is the first column at fault.
    MalformedRow { column: usize, fault: FieldFault },
}

/// The text of each field of a row.
pub open spec fn row_text(row: Seq<String>) -> Seq<Seq<char>> {
    Seq::new(row.len(), |i: int| row[i]@)
}

/// What is wrong with one column of a row, if anything is.
pub open spec fn column_fault(row: Seq<Seq<char>>, column: int) -> Option<FieldFault> {
    if column >= row.len() {
        Some(FieldFault::Missing)
    } else if column == 1 || column == 3 || column == 4 {
        if Address::spec_parse(row[column]) is None {
            Some(FieldFault::NotAddress)
        } else {
            None
        }
    } else if (column == 0 && parse_i64_text(row[column]) is None) || (column == 2
        && parse_i32_text(row[column]) is None) || (column == 5 && parse_u32_text(row[column])
        is None) || ((column == 6 || column == 7) && parse_u64_text(row[column]) is None) {
        Some(FieldFault::NotNumeric)
    } else {
        None
    }
}

/// The fault of the first faulty column before `upto`, if there is one.
pub open spec fn first_fault(row: Seq<Seq<char>>, upto: int) -> Option<DecodeError>
    decreases upto,
{
    if upto <= 0 {
        None
    } else {
        match first_fault(row, upto - 1) {
            Some(e) => Some(e),
            None => match column_fault(row, upto - 1) {
                Some(fault) => Some(
                    DecodeError::MalformedRow { column: (upto - 1) as usize, fault },
                ),
                None => None,
            },
        }
    }
}

impl Pool {
    /// A pool trades two different tokens.
    pub open spec fn wf(self) -> bool {
        self.token0 != self.token1
    }

    /// The row that persists the pool, as text.
    pub open spec fn spec_row(self) -> Seq<Seq<char>> {
        seq![
            decimal_text(self.id as int),
            self.address.spec_text(),
            decimal_text(self.version.spec_num() as int),
            self.token0.spec_text(),
            self.token1.spec_text(),
            decimal_text(self.fee as int),
            decimal_text(self.block_number as int),
            decimal_text(self.timestamp as int),
        ]
    }

    /// The pool that a row denotes, or the first thing wrong with the row.
    /// Columns after the eighth are not looked at.
    pub open spec fn spec_decode(row: Seq<Seq<char>>) -> Result<Pool, DecodeError> {
        match first_fault(row, 8) {
            Some(e) => Err(e),
            None => Ok(
                Pool {
                    id: parse_i64_text(row[0]).unwrap(),
                    address: Address::spec_parse(row[1]).unwrap(),
                    version: DexVariant::spec_from_num(parse_i32_text(row[2]).unwrap()),
                    token0: Address::spec_parse(row[3]).unwrap(),
                    token1: Address::spec_parse(row[4]).unwrap(),
                    fee: parse_u32_text(row[5]).unwrap(),
                    block_number: parse_u64_text(row[6]).unwrap(),
                    timestamp: parse_u64_text(row[7]).unwrap(),
                },
            ),
        }
    }

    /// Whether the pool trades the unordered pair of tokens.
    pub open spec fn spec_trades(self, token_a: Address, token_b: Address) -> bool {
        (self.token0 == token_a && self.token1 == token_b) || (self.token1 == token_a
            && self.token0 == token_b)
    }

    /// The one-line description of the pool.
    pub open spec fn spec_pretty_msg(self) -> Seq<char> {
        seq!['['] + self.version.spec_name() + seq![']', ' '] + self.address.spec_text() + seq![
            ':',
            ' ',
        ] + self.token0.spec_text() + seq![' ', '-', '-', '>', ' '] + self.token1.spec_text()
    }

    /// The row that persists the pool, with numbers as numbers.
    pub fn cache_row(&self) -> (row: (i64, String, i32, String, String, u32, u64, u64))
        ensures
            row.0 == self.id,
            row.1@ == self.address.spec_text(),
            row.2 == self.version.spec_num(),
            row.3@ == self.token0.spec_text(),
            row.4@ == self.token1.spec_text(),
            row.5 == self.fee,
            row.6 == self.block_number,
            row.7 == self.timestamp,
    {
        (
            self.id,
            self.address.to_text(),
            self.version.num() as i32,
            self.token0.to_text(),
            self.token1.to_text(),
            self.fee,
            self.block_number,
            self.timestamp,
        )
    }

    /// The row that persists the pool, as text.
    pub fn encode(&self) -> (row: Vec<String>)
        ensures
            row_text(row@) == self.spec_row(),
    {
        let mut row: Vec<String> = Vec::new();
        row.push(render_i64(self.id));
        row.push(self.address.to_text());
        row.push(render_u64(self.version.num() as u64));
        row.push(self.token0.to_text());
        row.push(self.token1.to_text());
        row.push(render_u64(self.fee as u64));
        row.push(render_u64(self.block_number));
        row.push(render_u64(self.timestamp));
        assert(row_text(row@) =~= self.spec_row());
        row
    }

    /// Reads a pool from a row.
    pub fn decode(row: &Vec<String>) -> (r: Result<Pool, DecodeError>)
        ensures
            r == Pool::spec_decode(row_text(row@)),
    {
        let ghost text = row_text(row@);
        proof {
            reveal_with_fuel(first_fault, 9);
        }
        if row.len() < 1 {
            return Err(DecodeError::MalformedRow { column: 0, fault: FieldFault::Missing });
        }
        assert(text[0] == row@[0]@);
        let id = match parse_i64(row[0].as_str()) {
            Some(v) => v,
            None => {
                return Err(DecodeError::MalformedRow { column: 0, fault: FieldFault::NotNumeric });
            },
        };
        if row.len() < 2 {
            return Err(DecodeError::MalformedRow { column: 1, fault: FieldFault::Missing });
        }
        assert(text[1] == row@[1]@);
        let address = match Address::parse(row[1].as_str()) {
            Some(v) => v,
            None => {
                return Err(DecodeError::MalformedRow { column: 1, fault: FieldFault::NotAddress });
            },
        };
        if row.len() < 3 {
            return Err(DecodeError::MalformedRow { column: 2, fault: FieldFault::Missing });
        }
        assert(text[2] == row@[2]@);
        let version = match parse_i32(row[2].as_str()) {
            Some(v) => DexVariant::from_num(v),
            None => {
                return Err(DecodeError::MalformedRow { column: 2, fault: FieldFault::NotNumeric });
            },
        };
        if row.len() < 4 {
            return Err(DecodeError::MalformedRow { column: 3, fault: FieldFault::Missing });
        }
        assert(text[3] == row@[3]@);
        let token0 = match Address::parse(row[3].as_str()) {
            Some(v) => v,
            None => {
                return Err(DecodeError::MalformedRow { column: 3, fault: FieldFault::NotAddress });
            },
        };
        if row.len() < 5 {
            return Err(DecodeError::MalformedRow { column: 4, fault: FieldFault::Missing });
        }
        assert(text[4] == row@[4]@);
        let token1 = match Address::parse(row[4].as_str()) {
            Some(v) => v,
            None => {
                return Err(DecodeError::MalformedRow { column: 4, fault: FieldFault::NotAddress });
            },
        };
        if row.len() < 6 {
            return Err(DecodeError::MalformedRow { column: 5, fault: FieldFault::Missing });
        }
        assert(text[5] == row@[5]@);
        let fee = match parse_u32(row[5].as_str()) {
            Some(v) => v,
            None => {
                return Err(DecodeError::MalformedRow { column: 5, fault: FieldFault::NotNumeric });
            },
        };
        if row.len() < 7 {
            return Err(DecodeError::MalformedRow { column: 6, fault: FieldFault::Missing });
        }
        assert(text[6] == row@[6]@);
        let block_number = match parse_u64(row[6].as_str()) {
            Some(v) => v,
            None => {
                return Err(DecodeError::MalformedRow { column: 6, fault: FieldFault::NotNumeric });
            },
        };
        if row.len() < 8 {
            return Err(DecodeError::MalformedRow { column: 7, fault: FieldFault::Missing });
        }
        assert(text[7] == row@[7]@);
        let timestamp = match parse_u64(row[7].as_str()) {
            Some(v) => v,
            None => {
                return Err(DecodeError::MalformedRow { column: 7, fault: FieldFault::NotNumeric });
            },
        };
        Ok(Pool { id, address, version, token0, token1, fee, block_number, timestamp })
    }

    /// Whether the pool trades `token_a` for `token_b` in either direction.
    pub fn trades(&self, token_a: Address, token_b: Address) -> (yes: bool)
        ensures
            yes == self.spec_trades(token_a, token_b),
    {
        let is_zero_for_one = self.token0 == token_a && self.token1 == token_b;
        let is_one_for_zero = self.token1 == token_a && self.token0 == token_b;
        is_zero_for_one || is_one_for_zero
    }

    /// A one-line description: variant, address, and the two tokens.
    pub fn pretty_msg(&self) -> (msg: String)
        ensures
            msg@ == self.spec_pretty_msg(),
    {
        proof {
            reveal_strlit("[");
            reveal_strlit("] ");
            reveal_strlit(": ");
            reveal_strlit(" --> ");
        }
        let mut msg = String::new();
        msg.append("[");
        msg.append(self.version.name());
        msg.append("] ");
        msg.append(self.address.to_text().as_str());
        msg.append(": ");
        msg.append(self.token0.to_text().as_str());
        msg.append(" --> ");
        msg.append(self.token1.to_text().as_str());
        assert(msg@ =~= self.spec_pretty_msg());
        msg
    }
}

/// Every column of the row written for a pool reads as the field it was
/// written for, so that the row has no fault.
pub proof fn lemma_row_no_fault(p: Pool)
    ensures
        parse_i64_text(p.spec_row()[0]) == Some(p.id),
        Address::spec_parse(p.spec_row()[1]) == Some(p.address),
        parse_i32_text(p.spec_row()[2]) == Some(p.version.spec_num() as i32),
        Address::spec_parse(p.spec_row()[3]) == Some(p.token0),
        Address::spec_parse(p.spec_row()[4]) == Some(p.token1),
        parse_u32_text(p.spec_row()[5]) == Some(p.fee),
        parse_u64_text(p.spec_row()[6]) == Some(p.block_number),
        parse_u64_text(p.spec_row()[7]) == Some(p.timestamp),
        first_fault(p.spec_row(), 8) is None,
{
    lemma_parse_i64_text(p.id);
    lemma_parse_text(p.address);
    lemma_parse_i32_text(p.version.spec_num() as i32);
    lemma_parse_text(p.token0);
    lemma_parse_text(p.token1);
    lemma_parse_u32_text(p.fee);
    lemma_parse_u64_text(p.block_number);
    lemma_parse_u64_text(p.timestamp);
    reveal_with_fuel(first_fault, 9);
}

/// Reading the row written for a pool gives the pool back.
pub proof fn lemma_decode_encode(p: Pool)
    ensures
        Pool::spec_decode(p.spec_row()) == Ok::<Pool, DecodeError>(p),
{
    lemma_row_no_fault(p);
}

/// Which token is named first does not matter to whether a pool trades a pair.
pub proof fn lemma_trades_symmetric(p: Pool, token_a: Address, token_b: Address)
    ensures
        p.spec_trades(token_a, token_b) == p.spec_trades(token_b, token_a),
{
}

} // verus!
