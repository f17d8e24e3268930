//! The header: what a dataset says about itself before its images.
//!
//! On the wire a header is, in order: the three bytes `JDX`; one byte for the
//! revision; the image width and height, two bytes each; one byte for the bit
//! depth; four bytes for the length of the class table; eight bytes for the
//! number of images; and the class table. Numbers are little-endian.

use vstd::prelude::*;
use vstd::slice::slice_subrange;
use vstd::string::StringSliceAdditionalSpecFns;
use vstd::utf8::encode_utf8;
use crate::classes::{MAX_CLASSES, MAX_NAME_BYTES};
use crate::error::Error;
use crate::table::{
    append_bytes, encode_class_table, encode_table, lemma_encode_table_len,
    lemma_encode_table_push, lemma_encode_table_take, lemma_table_round_trip, names_of,
    parse_class_table, parse_table, storable,
};
use crate::version::Version;
use crate::wire::{
    get_u16, get_u32, get_u64, le_bytes, le_value, lemma_le_bytes_len,
    lemma_le_value_of_le_bytes, lemma_radix_values, put_u16, put_u32, put_u64,
};

verus! {

/// The number of bytes of a header that come before its class table.
pub const FIXED_LEN: usize = 21;

/// The bytes that every file starts with.
pub open spec fn magic() -> Seq<u8> {
    seq![0x4Au8, 0x44u8, 0x58u8]
}

/// The metadata of a dataset.
#[derive(Debug, PartialEq, Eq)]
pub struct Header {
    /// The revision of the format.
    pub version: Version,
    /// The width of every image, in pixels.
    pub image_width: u16,
    /// The height of every image, in pixels.
    pub image_height: u16,
    /// The number of bits per pixel.
    pub bit_depth: u8,
    /// The number of images in the dataset.
    pub image_count: u64,
    /// The class names; a label is a position in this list.
    pub classes: Vec<String>,
}

/// A header as a mathematical value: the class names are sequences of
/// characters.
pub struct HeaderView {
    pub version: Version,
    pub image_width: u16,
    pub image_height: u16,
    pub bit_depth: u8,
    pub image_count: u64,
    pub classes: Seq<Seq<char>>,
}

impl View for Header {
    type V = HeaderView;

    open spec fn view(&self) -> HeaderView {
        HeaderView {
            version: self.version,
            image_width: self.image_width,
            image_height: self.image_height,
            bit_depth: self.bit_depth,
            image_count: self.image_count,
            classes: names_of(self.classes@),
        }
    }
}

impl HeaderView {
    /// The number of bytes of one image: width times height times the whole
    /// bytes of a pixel.
    pub open spec fn image_size(self) -> nat {
        self.image_width as nat * self.image_height as nat * (self.bit_depth as nat / 8)
    }

    /// Whether images of this header and of `other` have the same width,
    /// height and bit depth.
    pub open spec fn compatible_with(self, other: HeaderView) -> bool {
        &&& self.image_width == other.image_width
        &&& self.image_height == other.image_height
        &&& self.bit_depth == other.bit_depth
    }

    /// The invariant of a header: at most 65,535 classes, no name longer than
    /// 65,534 bytes, no name twice.
    pub open spec fn wf(self) -> bool {
        &&& self.classes.len() <= MAX_CLASSES
        &&& forall|i: int|
            0 <= i < self.classes.len() ==> encode_utf8(#[trigger] self.classes[i]).len()
                <= MAX_NAME_BYTES
        &&& self.classes.no_duplicates()
    }

    /// Whether the header can be written: the length of its class table fits
    /// the four bytes that hold it.
    pub open spec fn encodable(self) -> bool {
        encode_table(self.classes).len() <= u32::MAX
    }

    /// Whether every class name survives being written and read back.
    pub open spec fn storable(self) -> bool {
        forall|i: int| 0 <= i < self.classes.len() ==> storable(#[trigger] self.classes[i])
    }

    /// The bytes of the header that come before the class table, for a table
    /// of `table_len` bytes.
    pub open spec fn fixed_bytes(self, table_len: nat) -> Seq<u8> {
        magic() + seq![self.version.tag()] + le_bytes(self.image_width as nat, 2) + le_bytes(
            self.image_height as nat,
            2,
        ) + seq![self.bit_depth] + le_bytes(table_len, 4) + le_bytes(self.image_count as nat, 8)
    }

    /// The bytes of the header.
    pub open spec fn to_bytes(self) -> Seq<u8> {
        let table = encode_table(self.classes);
        self.fixed_bytes(table.len()) + table
    }

    /// What reading a header from the front of `bytes` gives: the header and
    /// the number of bytes it takes, or the failure.
    ///
    /// The stream is read piece by piece, and the first piece that is missing
    /// or wrong decides: the magic bytes, the revision, the fixed fields, the
    /// class table.
    pub open spec fn parse(bytes: Seq<u8>) -> Result<(HeaderView, int), Error> {
        if bytes.len() < 3 {
            Err(Error::truncated())
        } else if bytes.subrange(0, 3) != magic() {
            Err(Error::CorruptFile)
        } else {
            match Version::parse(bytes.subrange(3, bytes.len() as int)) {
                Err(error) => Err(error),
                Ok(version) => {
                    if bytes.len() < FIXED_LEN {
                        Err(Error::truncated())
                    } else {
                        let table_len = le_value(bytes.subrange(9, 13)) as int;
                        if bytes.len() < FIXED_LEN + table_len {
                            Err(Error::truncated())
                        } else {
                            Ok(
                                (
                                    HeaderView {
                                        version,
                                        image_width: le_value(bytes.subrange(4, 6)) as u16,
                                        image_height: le_value(bytes.subrange(6, 8)) as u16,
                                        bit_depth: bytes[8],
                                        image_count: le_value(bytes.subrange(13, 21)) as u64,
                                        classes: parse_table(
                                            bytes.subrange(
                                                FIXED_LEN as int,
                                                FIXED_LEN + table_len,
                                            ),
                                        ),
                                    },
                                    FIXED_LEN + table_len,
                                ),
                            )
                        }
                    }
                },
            }
        }
    }

    /// A header that keeps its invariant can be written.
    pub proof fn lemma_wf_is_encodable(self)
        requires
            self.wf(),
        ensures
            self.encodable(),
    {
        assert forall|i: int| 0 <= i < self.classes.len() implies encode_utf8(
            #[trigger] self.classes[i],
        ).len() + 1 <= 65535 by {}
        lemma_encode_table_len(self.classes, 65535);
        assert(self.classes.len() * 65535 <= 65535 * 65535) by (nonlinear_arith)
            requires
                self.classes.len() <= 65535,
        ;
    }

    /// The bytes before the class table are always `FIXED_LEN` many.
    pub proof fn lemma_fixed_len(self, table_len: nat)
        ensures
            self.fixed_bytes(table_len).len() == FIXED_LEN,
    {
        lemma_le_bytes_len(self.image_width as nat, 2);
        lemma_le_bytes_len(self.image_height as nat, 2);
        lemma_le_bytes_len(table_len, 4);
        lemma_le_bytes_len(self.image_count as nat, 8);
    }

    /// A well-formed header whose names are storable is read back from its
    /// own bytes, whatever follows them, and the reading stops where the
    /// header ends.
    pub proof fn lemma_round_trip(self, rest: Seq<u8>)
        requires
            self.wf(),
            self.storable(),
        ensures
            HeaderView::parse(self.to_bytes() + rest) == Ok::<(HeaderView, int), Error>(
                (self, self.to_bytes().len() as int),
            ),
    {
        let table = encode_table(self.classes);
        let fixed = self.fixed_bytes(table.len());
        let bytes = self.to_bytes() + rest;
        self.lemma_wf_is_encodable();
        self.lemma_fixed_len(table.len());
        lemma_radix_values();
        let width = le_bytes(self.image_width as nat, 2);
        let height = le_bytes(self.image_height as nat, 2);
        let length = le_bytes(table.len(), 4);
        let count = le_bytes(self.image_count as nat, 8);
        lemma_le_bytes_len(self.image_width as nat, 2);
        lemma_le_bytes_len(self.image_height as nat, 2);
        lemma_le_bytes_len(table.len(), 4);
        lemma_le_bytes_len(self.image_count as nat, 8);
        lemma_le_value_of_le_bytes(self.image_width as nat, 2);
        lemma_le_value_of_le_bytes(self.image_height as nat, 2);
        lemma_le_value_of_le_bytes(table.len(), 4);
        lemma_le_value_of_le_bytes(self.image_count as nat, 8);
        assert(bytes.subrange(0, 3) =~= magic());
        assert(bytes[3] == self.version.tag());
        assert(bytes.subrange(3, bytes.len() as int)[0] == bytes[3]);
        self.version.lemma_tag_round_trip();
        assert(bytes.subrange(4, 6) =~= width);
        assert(bytes.subrange(6, 8) =~= height);
        assert(bytes[8] == self.bit_depth);
        assert(bytes.subrange(9, 13) =~= length);
        assert(bytes.subrange(13, 21) =~= count);
        assert(bytes.subrange(FIXED_LEN as int, FIXED_LEN + table.len()) =~= table);
        lemma_table_round_trip(self.classes);
    }
}

impl Clone for Header {
    fn clone(&self) -> (copy: Self)
        ensures
            copy@ == self@,
    {
        let mut classes: Vec<String> = Vec::new();
        let mut i: usize = 0;
        while i < self.classes.len()
            invariant
                i <= self.classes.len(),
                classes@.len() == i,
                forall|k: int| 0 <= k < i ==> classes@[k]@ == self.classes@[k]@,
            decreases self.classes.len() - i,
        {
            classes.push(self.classes[i].clone());
            i += 1;
        }
        assert(names_of(classes@) =~= names_of(self.classes@));
        Header {
            version: self.version,
            image_width: self.image_width,
            image_height: self.image_height,
            bit_depth: self.bit_depth,
            image_count: self.image_count,
            classes,
        }
    }
}

impl Header {
    /// The number of bytes of one image.
    pub fn image_size(&self) -> (size: usize)
        requires
            self@.image_size() <= usize::MAX,
        ensures
            size == self@.image_size(),
    {
        let size = self.image_size_u64();
        size as usize
    }

    /// The number of bytes of one image, in a type that always holds it.
    pub fn image_size_u64(&self) -> (size: u64)
        ensures
            size == self@.image_size(),
            size <= 0xFFFF * 0xFFFF * 31,
    {
        let width = self.image_width as u64;
        let height = self.image_height as u64;
        let depth = (self.bit_depth / 8) as u64;
        assert(width * height <= 0xFFFF * 0xFFFF) by (nonlinear_arith)
            requires
                width <= 0xFFFF,
                height <= 0xFFFF,
        ;
        assert(width * height * depth <= 0xFFFF * 0xFFFF * 31) by (nonlinear_arith)
            requires
                width * height <= 0xFFFF * 0xFFFF,
                depth <= 31,
        ;
        width * height * depth
    }

    /// Whether images of this header and of `other` have the same width,
    /// height and bit depth.
    pub fn is_compatible_with(&self, other: &Header) -> (compatible: bool)
        ensures
            compatible == self@.compatible_with(other@),
    {
        self.image_width == other.image_width && self.image_height == other.image_height
            && self.bit_depth == other.bit_depth
    }

    /// Whether the header keeps its invariant.
    pub fn is_valid(&self) -> (valid: bool)
        ensures
            valid == self@.wf(),
    {
        let ghost names = names_of(self.classes@);
        if self.classes.len() > MAX_CLASSES {
            return false;
        }
        let mut i: usize = 0;
        while i < self.classes.len()
            invariant
                i <= self.classes.len(),
                names == names_of(self.classes@),
                forall|k: int| 0 <= k < i ==> encode_utf8(#[trigger] names[k]).len() <= MAX_NAME_BYTES,
                forall|k: int, l: int| 0 <= k < l < i ==> names[k] != names[l],
            decreases self.classes.len() - i,
        {
            if self.classes[i].as_str().as_bytes().len() > MAX_NAME_BYTES {
                assert(encode_utf8(names[i as int]).len() > MAX_NAME_BYTES);
                return false;
            }
            let mut j: usize = 0;
            while j < i
                invariant
                    j <= i < self.classes.len(),
                    names == names_of(self.classes@),
                    forall|k: int| 0 <= k < j ==> names[k] != names[i as int],
                decreases i - j,
            {
                if self.classes[j] == self.classes[i] {
                    assert(names[j as int] == names[i as int]);
                    return false;
                }
                j += 1;
            }
            i += 1;
        }
        true
    }

    /// Whether the header can be written.
    pub fn is_encodable(&self) -> (encodable: bool)
        ensures
            encodable == self@.encodable(),
    {
        let ghost names = names_of(self.classes@);
        let mut total: u64 = 0;
        let mut i: usize = 0;
        assert(names.take(0) =~= Seq::<Seq<char>>::empty());
        while i < self.classes.len()
            invariant
                i <= self.classes.len(),
                names == names_of(self.classes@),
                total == encode_table(names.take(i as int)).len(),
                total <= u32::MAX,
            decreases self.classes.len() - i,
        {
            let len = self.classes[i].as_str().as_bytes().len();
            proof {
                lemma_encode_table_push(names.take(i as int), names[i as int]);
                assert(names.take(i + 1) =~= names.take(i as int).push(names[i as int]));
                lemma_encode_table_take(names, i + 1);
            }
            if len as u64 >= u32::MAX as u64 - total {
                return false;
            }
            total = total + len as u64 + 1;
            i += 1;
        }
        assert(names.take(i as int) =~= names);
        true
    }

    /// Appends the bytes of the header to `out`.
    ///
    /// A header that keeps its invariant can always be written.
    pub fn write_to_bytes(&self, out: &mut Vec<u8>)
        requires
            self@.encodable(),
        ensures
            final(out)@ == old(out)@ + self@.to_bytes(),
    {
        let table = encode_class_table(&self.classes);
        out.push(0x4A);
        out.push(0x44);
        out.push(0x58);
        self.version.write_to_bytes(out);
        put_u16(out, self.image_width);
        put_u16(out, self.image_height);
        out.push(self.bit_depth);
        put_u32(out, table.len() as u32);
        put_u64(out, self.image_count);
        append_bytes(out, table.as_slice());
        assert(out@ =~= old(out)@ + self@.to_bytes());
    }

    /// Reads a header from the front of `bytes`, and says how many bytes it
    /// takes.
    pub fn read_prefix(bytes: &[u8]) -> (result: Result<(Header, usize), Error>)
        ensures
            match result {
                Ok((header, used)) => HeaderView::parse(bytes@) == Ok::<(HeaderView, int), Error>(
                    (header@, used as int),
                ),
                Err(error) => HeaderView::parse(bytes@) == Err::<(HeaderView, int), Error>(error),
            },
    {
        let len = bytes.len();
        if len < 3 {
            return Err(Error::Io(std::io::ErrorKind::UnexpectedEof));
        }
        if bytes[0] != 0x4A || bytes[1] != 0x44 || bytes[2] != 0x58 {
            assert(bytes@.subrange(0, 3)[0] == bytes@[0]);
            assert(bytes@.subrange(0, 3)[1] == bytes@[1]);
            assert(bytes@.subrange(0, 3)[2] == bytes@[2]);
            return Err(Error::CorruptFile);
        }
        assert(bytes@.subrange(0, 3) =~= magic());
        let version = match Version::read_from_bytes(slice_subrange(bytes, 3, len)) {
            Ok(version) => version,
            Err(error) => {
                return Err(error);
            },
        };
        if len < FIXED_LEN {
            return Err(Error::Io(std::io::ErrorKind::UnexpectedEof));
        }
        let image_width = get_u16(bytes, 4);
        let image_height = get_u16(bytes, 6);
        let bit_depth = bytes[8];
        let table_len = get_u32(bytes, 9) as usize;
        let image_count = get_u64(bytes, 13);
        if len - FIXED_LEN < table_len {
            return Err(Error::Io(std::io::ErrorKind::UnexpectedEof));
        }
        let classes = parse_class_table(slice_subrange(bytes, FIXED_LEN, FIXED_LEN + table_len));
        let header = Header { version, image_width, image_height, bit_depth, image_count, classes };
        Ok((header, FIXED_LEN + table_len))
    }

    /// Reads a header from the front of `bytes`.
    pub fn read_from_bytes(bytes: &[u8]) -> (result: Result<Header, Error>)
        ensures
            match result {
                Ok(header) => HeaderView::parse(bytes@) matches Ok(parsed) && parsed.0 == header@,
                Err(error) => HeaderView::parse(bytes@) == Err::<(HeaderView, int), Error>(error),
            },
    {
        match Header::read_prefix(bytes) {
            Ok((header, _)) => Ok(header),
            Err(error) => Err(error),
        }
    }
}

} // verus!
