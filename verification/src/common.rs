//! Alignment records and the identities that their names encode.

use crate::text::{
    chars_of, field, field_end, field_start, has_field, is_field_bounds, lemma_field_bounds,
    lemma_has_earlier_fields, parse_signed, parse_unsigned, signed_of, split_fields, text_of,
    unsigned_of,
};
use vstd::prelude::*;
use vstd::string::StringExecFns;

verus! {

/// The identifier of a taxon, as a name encodes it.
pub type TaxID = usize;

/// The identifier of a gene, which counts the genes of one taxon.
pub type GeneID = usize;

/// The identifier of a taxon, as the pairwise table keeps it.
pub type TinyTaxID = u32;

/// The identifier of a gene, as the pairwise table keeps it.
pub type TinyGeneID = u32;

/// The character that separates the fields of a name.
pub const UNDERSCORE: char = '_';

/// The character that separates the fields of a line.
pub const TAB: char = '\t';

/// Why a name is not of the form `<taxon>_<gene>`.
#[derive(Debug, Clone, Copy, PartialEq, Eq, Structural)]
pub enum MalformedIdentifier {
    /// The name has no `_`, so no second field.
    MissingField,
    /// The first field is no number that fits the machine word.
    InvalidTaxon,
    /// The second field is no number that fits the machine word.
    InvalidGene,
    /// The gene is the largest machine word, which leaves no room for a slot
    /// of its own. No name is malformed in this way by itself: a record is,
    /// where it is to be counted under such a gene.
    GeneTooLarge,
}

/// The taxon and gene that `token` encodes in its first two `_`-separated
/// fields, or what is wrong with it. A missing field is found first, then a
/// bad taxon, then a bad gene.
pub open spec fn identity_of(token: Seq<char>) -> Result<(nat, nat), MalformedIdentifier> {
    if !has_field(token, UNDERSCORE, 1) {
        Err(MalformedIdentifier::MissingField)
    } else {
        match unsigned_of(field(token, UNDERSCORE, 0), usize::MAX as nat) {
            None => Err(MalformedIdentifier::InvalidTaxon),
            Some(taxon) => match unsigned_of(field(token, UNDERSCORE, 1), usize::MAX as nat) {
                None => Err(MalformedIdentifier::InvalidGene),
                Some(gene) => Ok((taxon, gene)),
            },
        }
    }
}

/// Reads the taxon and the gene off a name of the form `<taxon>_<gene>[_...]`.
pub fn taxid_geneid(token: &str) -> (res: Result<(usize, usize), MalformedIdentifier>)
    ensures
        match res {
            Ok((taxon, gene)) => identity_of(token@) == Ok::<
                (nat, nat),
                MalformedIdentifier,
            >((taxon as nat, gene as nat)),
            Err(e) => identity_of(token@) == Err::<(nat, nat), MalformedIdentifier>(e),
        },
{
    let chars = chars_of(token);
    let fields = split_fields(&chars, UNDERSCORE, 2);
    if fields.len() < 2 {
        proof {
            if has_field(chars@, UNDERSCORE, 1) {
                lemma_field_bounds(chars@, UNDERSCORE, 1);
            }
        }
        return Err(MalformedIdentifier::MissingField);
    }
    let first = fields[0];
    let second = fields[1];
    proof {
        lemma_field_bounds(chars@, UNDERSCORE, 0);
        lemma_field_bounds(chars@, UNDERSCORE, 1);
    }
    let taxon = match parse_unsigned(&chars, first.0, first.1, usize::MAX as u64) {
        Some(v) => v as usize,
        None => {
            return Err(MalformedIdentifier::InvalidTaxon);
        },
    };
    let gene = match parse_unsigned(&chars, second.0, second.1, usize::MAX as u64) {
        Some(v) => v as usize,
        None => {
            return Err(MalformedIdentifier::InvalidGene);
        },
    };
    Ok((taxon, gene))
}

/// The settings of a run.
#[derive(Debug)]
pub struct Args {
    /// The input file.
    pub input: String,
    /// The lowest mapping quality that is counted.
    pub min_mapq: u8,
    /// The least number of genes to keep.
    pub min_genes: i32,
    /// How many incoming leaked reads are tolerated.
    pub max_leaked_reads: i32,
}

impl Default for Args {
    fn default() -> (res: Self)
        ensures
            res.input@.len() == 0,
            res.min_mapq == 4,
            res.min_genes == 60,
            res.max_leaked_reads == 10,
    {
        Args { input: String::new(), min_mapq: 4, min_genes: 60, max_leaked_reads: 10 }
    }
}

/// Why a line is no alignment record, by the first check that it fails.
#[derive(Debug, Clone, Copy, PartialEq, Eq, Structural)]
pub enum MalformedRecord {
    /// The line has fewer than eleven tab-separated fields.
    TooFewFields,
    /// The flag is no number of 16 bits.
    InvalidFlag,
    /// The position is no number of 32 bits.
    InvalidPosition,
    /// The mapping quality is no number of 8 bits.
    InvalidMapq,
    /// The position of the mate is no number of 32 bits.
    InvalidPnext,
    /// The template length is no signed number of 32 bits.
    InvalidTlen,
}

/// What a failed check is reported as, for the line that failed it.
pub open spec fn fault_text(fault: MalformedRecord, line: Seq<char>) -> Seq<char> {
    match fault {
        MalformedRecord::TooFewFields => "Invalid SAM line: "@ + line,
        MalformedRecord::InvalidFlag => "Invalid flag"@,
        MalformedRecord::InvalidPosition => "Invalid position"@,
        MalformedRecord::InvalidMapq => "Invalid mapping quality"@,
        MalformedRecord::InvalidPnext => "Invalid pnext"@,
        MalformedRecord::InvalidTlen => "Invalid template length"@,
    }
}

impl MalformedRecord {
    /// The report of this fault for `line`.
    pub fn message(&self, line: &str) -> (res: String)
        ensures
            res@ == fault_text(*self, line@),
    {
        match self {
            MalformedRecord::TooFewFields => String::from_str("Invalid SAM line: ").concat(line),
            MalformedRecord::InvalidFlag => String::from_str("Invalid flag"),
            MalformedRecord::InvalidPosition => String::from_str("Invalid position"),
            MalformedRecord::InvalidMapq => String::from_str("Invalid mapping quality"),
            MalformedRecord::InvalidPnext => String::from_str("Invalid pnext"),
            MalformedRecord::InvalidTlen => String::from_str("Invalid template length"),
        }
    }
}

/// The first check that `line` fails as an alignment record, if any: eleven
/// fields, then the five numeric fields in the order in which they stand.
pub open spec fn fault_of(line: Seq<char>) -> Option<MalformedRecord> {
    if !has_field(line, TAB, 10) {
        Some(MalformedRecord::TooFewFields)
    } else if unsigned_of(field(line, TAB, 1), u16::MAX as nat) is None {
        Some(MalformedRecord::InvalidFlag)
    } else if unsigned_of(field(line, TAB, 3), u32::MAX as nat) is None {
        Some(MalformedRecord::InvalidPosition)
    } else if unsigned_of(field(line, TAB, 4), u8::MAX as nat) is None {
        Some(MalformedRecord::InvalidMapq)
    } else if unsigned_of(field(line, TAB, 7), u32::MAX as nat) is None {
        Some(MalformedRecord::InvalidPnext)
    } else if signed_of(field(line, TAB, 8), i32::MIN as int, i32::MAX as int) is None {
        Some(MalformedRecord::InvalidTlen)
    } else {
        None
    }
}

/// One alignment record: the first eleven fields of a line of a SAM file.
#[derive(Debug)]
pub struct Sam {
    pub qname: String,
    pub flag: u16,
    pub rname: String,
    pub pos: u32,
    pub mapq: u8,
    pub cigar: String,
    pub rnext: String,
    pub pnext: u32,
    pub tlen: i32,
    pub seq: String,
    pub qual: String,
}

impl Sam {
    /// Whether this record holds the first eleven fields of `line`, the text
    /// fields as they stand and the numeric ones by their value.
    pub open spec fn holds(&self, line: Seq<char>) -> bool {
        &&& self.qname@ == field(line, TAB, 0)
        &&& unsigned_of(field(line, TAB, 1), u16::MAX as nat) == Some(self.flag as nat)
        &&& self.rname@ == field(line, TAB, 2)
        &&& unsigned_of(field(line, TAB, 3), u32::MAX as nat) == Some(self.pos as nat)
        &&& unsigned_of(field(line, TAB, 4), u8::MAX as nat) == Some(self.mapq as nat)
        &&& self.cigar@ == field(line, TAB, 5)
        &&& self.rnext@ == field(line, TAB, 6)
        &&& unsigned_of(field(line, TAB, 7), u32::MAX as nat) == Some(self.pnext as nat)
        &&& signed_of(field(line, TAB, 8), i32::MIN as int, i32::MAX as int) == Some(
            self.tlen as int,
        )
        &&& self.seq@ == field(line, TAB, 9)
        &&& self.qual@ == field(line, TAB, 10)
    }

    /// Reads a record off a line, or says which check the line fails first.
    pub fn parse(line: &str) -> (res: Result<Self, MalformedRecord>)
        ensures
            match res {
                Ok(sam) => fault_of(line@) is None && sam.holds(line@),
                Err(fault) => fault_of(line@) == Some(fault),
            },
    {
        let chars = chars_of(line);
        let fields = split_fields(&chars, TAB, 11);
        if fields.len() < 11 {
            proof {
                if has_field(chars@, TAB, 10) {
                    lemma_has_earlier_fields(chars@, TAB, fields@.len(), 10);
                }
            }
            return Err(MalformedRecord::TooFewFields);
        }
        proof {
            assert forall|k: nat| k <= 10 implies 0 <= #[trigger] field_start(chars@, TAB, k)
                <= field_end(chars@, TAB, k) <= chars@.len() by {
                assert(is_field_bounds(chars@, TAB, k, fields@[k as int]));
                lemma_field_bounds(chars@, TAB, k);
            }
        }
        let flag = match parse_unsigned(&chars, fields[1].0, fields[1].1, u16::MAX as u64) {
            Some(v) => v as u16,
            None => {
                return Err(MalformedRecord::InvalidFlag);
            },
        };
        let pos = match parse_unsigned(&chars, fields[3].0, fields[3].1, u32::MAX as u64) {
            Some(v) => v as u32,
            None => {
                return Err(MalformedRecord::InvalidPosition);
            },
        };
        let mapq = match parse_unsigned(&chars, fields[4].0, fields[4].1, u8::MAX as u64) {
            Some(v) => v as u8,
            None => {
                return Err(MalformedRecord::InvalidMapq);
            },
        };
        let pnext = match parse_unsigned(&chars, fields[7].0, fields[7].1, u32::MAX as u64) {
            Some(v) => v as u32,
            None => {
                return Err(MalformedRecord::InvalidPnext);
            },
        };
        let tlen = match parse_signed(
            &chars,
            fields[8].0,
            fields[8].1,
            i32::MIN as i64,
            i32::MAX as i64,
        ) {
            Some(v) => v as i32,
            None => {
                return Err(MalformedRecord::InvalidTlen);
            },
        };
        Ok(
            Sam {
                qname: text_of(&chars, fields[0].0, fields[0].1),
                flag,
                rname: text_of(&chars, fields[2].0, fields[2].1),
                pos,
                mapq,
                cigar: text_of(&chars, fields[5].0, fields[5].1),
                rnext: text_of(&chars, fields[6].0, fields[6].1),
                pnext,
                tlen,
                seq: text_of(&chars, fields[9].0, fields[9].1),
                qual: text_of(&chars, fields[10].0, fields[10].1),
            },
        )
    }

    /// Create a record from a line of a SAM file. A line that is no record is
    /// answered with the report of the first check that it fails.
    pub fn from_line(line: &str) -> (res: Result<Self, String>)
        ensures
            match res {
                Ok(sam) => fault_of(line@) is None && sam.holds(line@),
                Err(report) => fault_of(line@) is Some && report@ == fault_text(
                    fault_of(line@)->0,
                    line@,
                ),
            },
    {
        match Sam::parse(line) {
            Ok(sam) => Ok(sam),
            Err(fault) => Err(fault.message(line)),
        }
    }

    /// Whether the record names a reference at all: `*` stands for none.
    pub fn is_aligned(&self) -> (res: bool)
        ensures
            res == (self.rname@ != seq!['*']),
    {
        let chars = chars_of(self.rname.as_str());
        let star = chars.len() == 1 && chars[0] == '*';
        assert(star ==> chars@ =~= seq!['*']);
        !star
    }
}

/// The identities of a record: where the read stems from (query) and where it
/// was assigned to (reference), each as taxon and gene.
#[derive(Debug, Clone, Copy, PartialEq, Eq, Structural)]
pub struct FromTo {
    pub query: TinyTaxID,
    pub reference: TinyTaxID,
    pub query_gene: TinyGeneID,
    pub reference_gene: TinyGeneID,
}

impl FromTo {
    /// Whether the read was assigned to the gene that it stems from.
    pub open spec fn correct(&self) -> bool {
        self.query == self.reference && self.query_gene == self.reference_gene
    }

    /// Whether the read was assigned to the gene that it stems from.
    pub fn is_correct(&self) -> (res: bool)
        ensures
            res == self.correct(),
    {
        self.query == self.reference && self.query_gene == self.reference_gene
    }
}

/// An identifier as it is kept in a record's identities: its low 32 bits.
pub open spec fn narrowed(id: nat) -> u32 {
    (id % 0x1_0000_0000) as u32
}

/// The low 32 bits of `id`.
pub fn narrow(id: usize) -> (res: u32)
    ensures
        res == narrowed(id as nat),
{
    ((id as u64) % 0x1_0000_0000u64) as u32
}

/// The identities that the names of a record encode, the query's name read
/// first, or what is wrong with the first name that is malformed.
pub open spec fn ids_of(qname: Seq<char>, rname: Seq<char>) -> Result<FromTo, MalformedIdentifier> {
    match identity_of(qname) {
        Err(e) => Err(e),
        Ok((query, query_gene)) => match identity_of(rname) {
            Err(e) => Err(e),
            Ok((reference, reference_gene)) => Ok(
                FromTo {
                    query: narrowed(query),
                    reference: narrowed(reference),
                    query_gene: narrowed(query_gene),
                    reference_gene: narrowed(reference_gene),
                },
            ),
        },
    }
}

/// Resolves the identities of a record from its query and reference names.
pub fn sam_to_ids(sam: &Sam) -> (res: Result<FromTo, MalformedIdentifier>)
    ensures
        res == ids_of(sam.qname@, sam.rname@),
{
    let (query, query_gene) = match taxid_geneid(sam.qname.as_str()) {
        Ok(identity) => identity,
        Err(e) => {
            return Err(e);
        },
    };
    let (reference, reference_gene) = match taxid_geneid(sam.rname.as_str()) {
        Ok(identity) => identity,
        Err(e) => {
            return Err(e);
        },
    };
    Ok(
        FromTo {
            query: narrow(query),
            reference: narrow(reference),
            query_gene: narrow(query_gene),
            reference_gene: narrow(reference_gene),
        },
    )
}

} // verus!
