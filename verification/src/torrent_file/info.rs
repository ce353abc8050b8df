use vstd::prelude::*;
use vstd::utf8::encode_utf8;
use sha1::{Digest, Sha1};
use crate::bencode::{bencode_string, bencode_uint, lemma_read_string, push_string, push_uint, read_string};
use crate::torrent_file::keys::{FileInfo, Keys};
use crate::torrent_file::pieces::{pieces_concat, Pieces};

verus! {

/// The part of a torrent's metainfo that its info hash covers.
#[derive(Debug, Clone)]
pub struct Info {
    /// The suggested name of the file, or of the directory for several files.
    pub name: String,
    /// The file's length, or the list of files.
    pub keys: Keys,
    /// The number of bytes in each piece (the last piece may be shorter).
    pub piece_length: u64,
    /// The SHA-1 hash of every piece.
    pub pieces: Pieces,
}

/// The UTF-8 bytes of a text, bencoded.
pub open spec fn bencode_text(s: Seq<char>) -> Seq<u8> {
    bencode_string(encode_utf8(s))
}

/// A bencoded text reads back as its UTF-8 bytes, whatever follows it: its
/// length prefix counts bytes, not characters.
pub proof fn lemma_read_text(s: Seq<char>, tail: Seq<u8>)
    ensures
        read_string(bencode_text(s) + tail) == Some((encode_utf8(s), tail)),
{
    lemma_read_string(encode_utf8(s), tail);
}

/// A list of texts, each bencoded, one after the other (without the list's
/// delimiters).
pub open spec fn texts_bencode(ss: Seq<String>) -> Seq<u8>
    decreases ss.len(),
{
    if ss.len() == 0 {
        Seq::empty()
    } else {
        texts_bencode(ss.drop_last()) + bencode_text(ss.last()@)
    }
}

/// One file entry: a dictionary with `length` and `path`.
pub open spec fn file_bencode(f: FileInfo) -> Seq<u8> {
    seq![100u8] + bencode_text("length"@) + bencode_uint(f.length as nat) + bencode_text("path"@)
        + seq![108u8] + texts_bencode(f.path@) + seq![101u8] + seq![101u8]
}

/// File entries one after the other (without the list's delimiters).
pub open spec fn files_bencode(fs: Seq<FileInfo>) -> Seq<u8>
    decreases fs.len(),
{
    if fs.len() == 0 {
        Seq::empty()
    } else {
        files_bencode(fs.drop_last()) + file_bencode(fs.last())
    }
}

/// The dictionary entries that describe the files: `files` with the list of
/// files, or `length` with the single file's length.
pub open spec fn keys_bencode(k: Keys) -> Seq<u8> {
    match k {
        Keys::SingleFile { length } => bencode_text("length"@) + bencode_uint(length as nat),
        Keys::MultipleFiles { files } => bencode_text("files"@) + seq![108u8] + files_bencode(
            files@,
        ) + seq![101u8],
    }
}

/// The bencoded info dictionary, keys in ascending byte order: the file
/// entries (`files` or `length`), `name`, `piece length`, `pieces`.
pub open spec fn info_bencode(info: Info) -> Seq<u8> {
    seq![100u8] + keys_bencode(info.keys) + bencode_text("name"@) + bencode_text(info.name@)
        + bencode_text("piece length"@) + bencode_uint(info.piece_length as nat) + bencode_text(
        "pieces"@,
    ) + bencode_string(pieces_concat(info.pieces.0@)) + seq![101u8]
}

/// SHA-1 of a byte string.
pub uninterp spec fn sha1_digest(data: Seq<u8>) -> Seq<u8>;

/// Calls `sha1::Sha1` (`new`, `update`, `finalize`). Claimed: the result is the
/// SHA-1 digest of `data`, which is twenty bytes long.
#[verifier::external_body]
fn sha1(data: &[u8]) -> (digest: Vec<u8>)
    ensures
        digest@ == sha1_digest(data@),
        digest@.len() == 20,
{
    let mut hasher = Sha1::new();
    hasher.update(data);
    hasher.finalize().to_vec()
}

fn push_text(out: &mut Vec<u8>, s: &str)
    ensures
        final(out)@ == old(out)@ + bencode_text(s@),
{
    push_string(out, s.as_bytes());
}

fn push_texts(out: &mut Vec<u8>, ss: &Vec<String>)
    ensures
        final(out)@ == old(out)@ + texts_bencode(ss@),
{
    let ghost start = out@;
    let mut i: usize = 0;
    while i < ss.len()
        invariant
            0 <= i <= ss@.len(),
            out@ == start + texts_bencode(ss@.take(i as int)),
        decreases ss@.len() - i,
    {
        assert(ss@.take(i + 1).drop_last() == ss@.take(i as int));
        push_text(out, ss[i].as_str());
        i = i + 1;
    }
    assert(ss@.take(ss@.len() as int) == ss@);
}

fn push_file(out: &mut Vec<u8>, f: &FileInfo)
    ensures
        final(out)@ == old(out)@ + file_bencode(*f),
{
    let ghost start = out@;
    out.push(100u8);
    push_text(out, "length");
    push_uint(out, f.length);
    push_text(out, "path");
    out.push(108u8);
    push_texts(out, &f.path);
    out.push(101u8);
    out.push(101u8);
    assert(out@ == start + file_bencode(*f));
}

fn push_keys(out: &mut Vec<u8>, k: &Keys)
    ensures
        final(out)@ == old(out)@ + keys_bencode(*k),
{
    let ghost start = out@;
    match k {
        Keys::SingleFile { length } => {
            push_text(out, "length");
            push_uint(out, *length);
        },
        Keys::MultipleFiles { files } => {
            push_text(out, "files");
            out.push(108u8);
            let mut i: usize = 0;
            while i < files.len()
                invariant
                    0 <= i <= files@.len(),
                    out@ == start + bencode_text("files"@) + seq![108u8] + files_bencode(
                        files@.take(i as int),
                    ),
                decreases files@.len() - i,
            {
                assert(files@.take(i + 1).drop_last() == files@.take(i as int));
                push_file(out, &files[i]);
                i = i + 1;
            }
            assert(files@.take(files@.len() as int) == files@);
            out.push(101u8);
        },
    }
    assert(out@ == start + keys_bencode(*k));
}

impl Info {
    /// The info dictionary in bencode, as the info hash covers it.
    pub fn to_bencode(&self) -> (bytes: Vec<u8>)
        ensures
            bytes@ == info_bencode(*self),
    {
        let mut out: Vec<u8> = Vec::new();
        out.push(100u8);
        push_keys(&mut out, &self.keys);
        push_text(&mut out, "name");
        push_text(&mut out, self.name.as_str());
        push_text(&mut out, "piece length");
        push_uint(&mut out, self.piece_length);
        push_text(&mut out, "pieces");
        let pieces = self.pieces.to_bytes();
        push_string(&mut out, pieces.as_slice());
        out.push(101u8);
        out
    }

    /// The info hash: SHA-1 of the bencoded info dictionary.
    pub fn hash(&self) -> (h: Vec<u8>)
        ensures
            h@ == sha1_digest(info_bencode(*self)),
            h@.len() == 20,
    {
        let bytes = self.to_bencode();
        sha1(bytes.as_slice())
    }
}

} // verus!
