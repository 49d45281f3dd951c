//! File transfer: an opened file exposed as a finite, forward-only sequence
//! of byte chunks, together with the advisory content type derived from the
//! file's name.

use vstd::prelude::*;

verus! {

/// What `mime_guess` answers for a name: a pure, case-insensitive table
/// lookup on the name's extension, a function of the name alone.
pub uninterp spec fn mime_of(name: Seq<u8>) -> Option<Seq<char>>;

/// Relies on mime_guess::from_path: the guess reads only the extension of
/// the given name, consults a fixed table, and returns its first entry; it
/// touches no disk and depends on the name alone.
#[verifier::external_body]
fn guess_mime(name: &Vec<u8>) -> (r: Option<String>)
    ensures
        match r {
            Some(t) => mime_of(name@) == Some(t@),
            None => mime_of(name@) is None,
        },
{
    match std::str::from_utf8(name.as_slice()) {
        Ok(s) => mime_guess::from_path(s).first_raw().map(|m| m.to_owned()),
        Err(_) => None,
    }
}

/// The advisory content type for a file name: the extension's known mapping,
/// or plain text when none is known. Advisory only: nothing checks it
/// against the file's actual content.
pub open spec fn spec_content_type(name: Seq<u8>) -> Seq<char> {
    match mime_of(name) {
        Some(t) => t,
        None => "text/plain; charset=utf-8"@,
    }
}

/// The advisory content type for a file name.
pub fn content_type_of(name: &Vec<u8>) -> (r: String)
    ensures
        r@ == spec_content_type(name@),
{
    match guess_mime(name) {
        Some(t) => t,
        None => "text/plain; charset=utf-8".to_owned(),
    }
}

/// The mathematical content of a [`DriveFile`].
pub struct DriveFileV {
    /// The file's bytes.
    pub content: Seq<u8>,
    /// The advisory content type.
    pub content_type: Seq<char>,
    /// How many bytes have been read already.
    pub pos: int,
}

/// An opened file: its content, the advisory content type derived from its
/// name, and a forward-only read position. Reading hands the content out in
/// bounded chunks and never restarts.
pub struct DriveFile {
    content: Vec<u8>,
    content_type: String,
    pos: usize,
}

impl View for DriveFile {
    type V = DriveFileV;

    closed spec fn view(&self) -> DriveFileV {
        DriveFileV {
            content: self.content@,
            content_type: self.content_type@,
            pos: self.pos as int,
        }
    }
}

impl DriveFile {
    /// An opened file over the given content, positioned at its start.
    pub fn new(content: Vec<u8>, content_type: String) -> (r: DriveFile)
        ensures
            r@.content == content@,
            r@.content_type == content_type@,
            r@.pos == 0,
            r.wf(),
    {
        DriveFile { content, content_type, pos: 0 }
    }

    /// The advisory content type.
    pub fn content_type(&self) -> (r: &str)
        ensures
            r@ == self@.content_type,
    {
        self.content_type.as_str()
    }

    /// The bytes not yet read.
    pub open spec fn remaining(self) -> Seq<u8> {
        self@.content.skip(self@.pos)
    }

    /// The read position never passes the end of the content.
    pub open spec fn wf(self) -> bool {
        0 <= self@.pos <= self@.content.len()
    }

    /// Whether the whole content has been read.
    pub fn is_exhausted(&self) -> (r: bool)
        requires
            self.wf(),
        ensures
            r == (self.remaining().len() == 0),
    {
        self.pos >= self.content.len()
    }

    /// Reads the next chunk of at most `max` bytes; `None` once the content
    /// is exhausted. The position only moves forward: the sequence of chunks
    /// a caller reads until `None`, joined in order, is exactly the content.
    pub fn next_chunk(&mut self, max: usize) -> (r: Option<Vec<u8>>)
        requires
            max > 0,
            old(self).wf(),
        ensures
            final(self).wf(),
            final(self)@.content == old(self)@.content,
            final(self)@.content_type == old(self)@.content_type,
            match r {
                Some(chunk) => {
                    &&& old(self).remaining().len() > 0
                    &&& 0 < chunk@.len() <= max
                    &&& chunk@.len() <= old(self).remaining().len()
                    &&& chunk@ == old(self).remaining().take(chunk@.len() as int)
                    &&& final(self)@.pos == old(self)@.pos + chunk@.len()
                    &&& final(self).remaining() == old(self).remaining().skip(
                        chunk@.len() as int,
                    )
                },
                None => {
                    &&& old(self).remaining().len() == 0
                    &&& final(self)@.pos == old(self)@.pos
                },
            },
    {
        if self.pos >= self.content.len() {
            return None;
        }
        let available = self.content.len() - self.pos;
        let step = if max < available {
            max
        } else {
            available
        };
        let mut chunk: Vec<u8> = Vec::new();
        let mut j: usize = 0;
        while j < step
            invariant
                0 <= j <= step,
                self@.pos + step <= self@.content.len(),
                self@.content.len() <= usize::MAX,
                chunk@ == self@.content.subrange(self@.pos, self@.pos + j),
            decreases step - j,
        {
            chunk.push(self.content[self.pos + j]);
            proof {
                assert(self@.content.subrange(self@.pos, self@.pos + j + 1)
                    =~= self@.content.subrange(self@.pos, self@.pos + j).push(
                    self@.content[self@.pos + j],
                ));
            }
            j = j + 1;
        }
        let ghost old_pos = self@.pos;
        self.pos = self.pos + step;
        proof {
            assert(chunk@ =~= self@.content.skip(old_pos).take(step as int));
            assert(self@.content.skip(old_pos).skip(step as int) =~= self@.content.skip(
                old_pos + step,
            ));
        }
        Some(chunk)
    }

    /// Reads everything left, in bounded chunks, and returns it joined: the
    /// buffered copy a download performs.
    pub fn read_all(&mut self, chunk_size: usize) -> (r: Vec<u8>)
        requires
            chunk_size > 0,
            old(self).wf(),
        ensures
            final(self).wf(),
            r@ == old(self).remaining(),
            final(self).remaining().len() == 0,
            final(self)@.content == old(self)@.content,
            final(self)@.content_type == old(self)@.content_type,
    {
        let mut out: Vec<u8> = Vec::new();
        proof {
            assert(out@ + self.remaining() =~= old(self).remaining());
        }
        loop
            invariant
                self.wf(),
                self@.content == old(self)@.content,
                self@.content_type == old(self)@.content_type,
                out@ + self.remaining() == old(self).remaining(),
                chunk_size > 0,
            decreases self.remaining().len(),
        {
            let ghost rem_before = self.remaining();
            match self.next_chunk(chunk_size) {
                Some(chunk) => {
                    let ghost n = chunk@.len() as int;
                    let ghost out_before = out@;
                    crate::path::push_bytes(&mut out, &chunk);
                    proof {
                        assert(rem_before =~= rem_before.take(n) + rem_before.skip(n));
                        assert(out@ + self.remaining() =~= out_before + rem_before);
                    }
                },
                None => {
                    proof {
                        assert(self.remaining() =~= Seq::<u8>::empty());
                        assert(out@ =~= out@ + self.remaining());
                    }
                    return out;
                },
            }
        }
    }
}

/// Joins inbound chunks in order: the buffered copy an upload performs, one
/// bounded chunk at a time.
pub fn concat_chunks(chunks: &Vec<Vec<u8>>) -> (r: Vec<u8>)
    ensures
        r@ == chunks.deep_view().flatten(),
{
    let ghost all = chunks.deep_view();
    let mut out: Vec<u8> = Vec::new();
    let mut i: usize = 0;
    proof {
        assert(all.take(0) =~~= Seq::<Seq<u8>>::empty());
        assert(out@ =~= all.take(0).flatten());
    }
    while i < chunks.len()
        invariant
            0 <= i <= all.len(),
            all == chunks.deep_view(),
            out@ == all.take(i as int).flatten(),
        decreases all.len() - i,
    {
        proof {
            assert(chunks.deep_view()[i as int] =~= chunks@[i as int]@);
        }
        crate::path::push_bytes(&mut out, &chunks[i]);
        proof {
            all.take(i as int).lemma_flatten_push(all[i as int]);
            assert(all.take(i as int + 1) =~~= all.take(i as int).push(all[i as int]));
            assert(out@ =~= all.take(i as int + 1).flatten());
        }
        i = i + 1;
    }
    proof {
        assert(all.take(all.len() as int) =~~= all);
    }
    out
}

} // verus!
