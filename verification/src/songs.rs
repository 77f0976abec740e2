//! Songs and their ranks.
use vstd::prelude::*;

verus! {

/// Represents a track with a rank and a title.
#[derive(Debug)]
pub struct Song {
    pub rank: u32,
    pub title: String,
}

impl Clone for Song {
    /// A second song with the same rank and title.
    fn clone(&self) -> (copy: Self)
        ensures
            copy == *self,
    {
        Song { rank: self.rank, title: self.title.clone() }
    }
}

/// Filter the tracks in the `songs` list by only keeping those which have
/// a rank strictly higher than `min_rank`, in the order in which they came.
pub fn filter_songs(songs: &[Song], min_rank: u32) -> (kept: Vec<Song>)
    ensures
        kept@ == songs@.filter(|song: Song| song.rank > min_rank),
{
    let ghost higher = |song: Song| song.rank > min_rank;
    let mut kept: Vec<Song> = Vec::new();
    let mut i: usize = 0;
    proof {
        reveal(Seq::filter);
        assert(songs@.take(0).filter(higher) =~= Seq::<Song>::empty());
    }
    while i < songs.len()
        invariant
            0 <= i <= songs.len(),
            higher == (|song: Song| song.rank > min_rank),
            kept@ == songs@.take(i as int).filter(higher),
        decreases songs.len() - i,
    {
        proof {
            reveal(Seq::filter);
            assert(songs@.take(i + 1).drop_last() =~= songs@.take(i as int));
            assert(songs@.take(i + 1).last() == songs@[i as int]);
        }
        if songs[i].rank > min_rank {
            kept.push(songs[i].clone());
        }
        i += 1;
    }
    assert(songs@.take(i as int) =~= songs@);
    kept
}

} // verus!
