//! Numbering of saved chunks; the storage itself is the caller's.
use vstd::prelude::*;
use vstd::utf8::encode_utf8;

verus! {

/// The record of one saved chunk: its number and its length in bytes.
pub struct SavedChunk {
    pub id: u64,
    pub byte_len: usize,
}

/// Hands out consecutive numbers, from 1, to the chunks saved under a database path.
pub struct DataSaver {
    db_path: String,
    next_id: u64,
}

impl DataSaver {
    /// How many chunks have been saved so far.
    pub closed spec fn saved_spec(&self) -> nat {
        self.next_id as nat
    }

    /// The database path.
    pub closed spec fn db_path_spec(&self) -> Seq<char> {
        self.db_path@
    }

    /// A saver for the database at `db_path`, with nothing saved yet.
    pub fn new(db_path: String) -> (r: DataSaver)
        ensures
            r.saved_spec() == 0,
            r.db_path_spec() == db_path@,
    {
        DataSaver { db_path, next_id: 0 }
    }

    /// The database path.
    pub fn db_path(&self) -> (r: &String)
        ensures
            r@ == self.db_path_spec(),
    {
        &self.db_path
    }

    /// How many chunks have been saved so far.
    pub fn saved(&self) -> (r: u64)
        ensures
            r == self.saved_spec(),
    {
        self.next_id
    }

    /// Saves one chunk: it gets the next number.
    pub fn save_chunk(&mut self, text: String) -> (r: SavedChunk)
        requires
            old(self).saved_spec() < u64::MAX,
        ensures
            final(self).saved_spec() == old(self).saved_spec() + 1,
            final(self).db_path_spec() == old(self).db_path_spec(),
            r.id == final(self).saved_spec(),
            r.byte_len == encode_utf8(text@).len() as usize,
    {
        self.next_id = self.next_id + 1;
        SavedChunk { id: self.next_id, byte_len: text.as_str().len() }
    }

    /// Saves the chunks in order; the i-th gets the number after `i` others.
    pub fn save_chunks(&mut self, chunks: Vec<String>) -> (r: Vec<SavedChunk>)
        requires
            old(self).saved_spec() + chunks@.len() <= u64::MAX,
        ensures
            final(self).saved_spec() == old(self).saved_spec() + chunks@.len(),
            final(self).db_path_spec() == old(self).db_path_spec(),
            r@.len() == chunks@.len(),
            forall|i: int|
                0 <= i < r@.len() ==> (#[trigger] r@[i]).id == old(self).saved_spec() + i + 1
                    && r@[i].byte_len == encode_utf8(chunks@[i]@).len() as usize,
    {
        let mut out: Vec<SavedChunk> = Vec::new();
        let mut k: usize = 0;
        while k < chunks.len()
            invariant
                k <= chunks@.len(),
                self.saved_spec() == old(self).saved_spec() + k,
                self.db_path_spec() == old(self).db_path_spec(),
                old(self).saved_spec() + chunks@.len() <= u64::MAX,
                out@.len() == k,
                forall|i: int|
                    0 <= i < k ==> (#[trigger] out@[i]).id == old(self).saved_spec() + i + 1
                        && out@[i].byte_len == encode_utf8(chunks@[i]@).len() as usize,
            decreases chunks.len() - k,
        {
            let text = chunks[k].clone();
            let rec = self.save_chunk(text);
            out.push(rec);
            k = k + 1;
        }
        out
    }
}

} // verus!
