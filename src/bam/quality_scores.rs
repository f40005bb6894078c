//! BAM record quality scores: raw Phred scores, one byte per base.

use vstd::prelude::*;

verus! {

/// The largest Phred quality score a SAM record can hold.
pub const MAX_SCORE: u8 = 93;

/// A Phred quality score between 0 and 93.
#[derive(Clone, Copy, Debug, PartialEq, Eq, Structural)]
pub struct Score(u8);

/// A raw score above 93.
#[derive(Clone, Copy, Debug, PartialEq, Eq, Structural)]
pub struct TryFromUByteError(pub u8);

impl Score {
    pub closed spec fn spec_value(self) -> u8 {
        self.0
    }

    /// A score from its raw value; fails above 93.
    pub fn new(n: u8) -> (r: Result<Score, TryFromUByteError>)
        ensures
            n <= MAX_SCORE ==> (r matches Ok(s) && s.spec_value() == n),
            n > MAX_SCORE ==> r == Err::<Score, TryFromUByteError>(TryFromUByteError(n)),
    {
        if n <= MAX_SCORE {
            Ok(Score(n))
        } else {
            Err(TryFromUByteError(n))
        }
    }

    pub fn get(&self) -> (n: u8)
        ensures
            n == self.spec_value(),
    {
        self.0
    }
}

/// The score a raw byte stands for.
pub open spec fn score_of(n: u8) -> Result<u8, TryFromUByteError> {
    if n <= MAX_SCORE {
        Ok(n)
    } else {
        Err(TryFromUByteError(n))
    }
}

/// An exec score result agrees with `score_of`.
pub open spec fn is_score_of(r: Result<Score, TryFromUByteError>, n: u8) -> bool {
    match score_of(n) {
        Ok(v) => r matches Ok(s) && s.spec_value() == v,
        Err(e) => r == Err::<Score, TryFromUByteError>(e),
    }
}

/// BAM record quality scores.
#[derive(Clone, Debug, Default, Eq, PartialEq)]
pub struct QualityScores(Vec<u8>);

impl View for QualityScores {
    type V = Seq<u8>;

    closed spec fn view(&self) -> Seq<u8> {
        self.0@
    }
}

impl QualityScores {
    /// Creates quality scores from raw quality scores data.
    pub fn new(qual: Vec<u8>) -> (r: Self)
        ensures
            r@ == qual@,
    {
        Self::from_vec(qual)
    }

    /// Creates quality scores from raw quality scores data.
    pub fn from_vec(qual: Vec<u8>) -> (r: Self)
        ensures
            r@ == qual@,
    {
        QualityScores(qual)
    }

    pub fn len(&self) -> (n: usize)
        ensures
            n == self@.len(),
    {
        self.0.len()
    }

    pub fn is_empty(&self) -> (b: bool)
        ensures
            b == (self@.len() == 0),
    {
        self.0.len() == 0
    }

    pub fn as_slice(&self) -> (s: &[u8])
        ensures
            s@ == self@,
    {
        self.0.as_slice()
    }

    /// The scores as printable characters: each raw value offset by 33 ('!'),
    /// modulo 256.
    pub fn chars(&self) -> (cs: Vec<char>)
        ensures
            cs@.len() == self@.len(),
            forall|i: int|
                0 <= i < cs@.len() ==> #[trigger] cs@[i] == (((self@[i] + 33) % 256) as u8) as char,
    {
        let mut cs: Vec<char> = Vec::new();
        let mut i: usize = 0;
        while i < self.0.len()
            invariant
                i <= self@.len(),
                self@ == self.0@,
                cs@.len() == i,
                forall|k: int|
                    0 <= k < i ==> #[trigger] cs@[k] == (((self@[k] + 33) % 256) as u8) as char,
            decreases self@.len() - i,
        {
            let n = self.0[i];
            cs.push(n.wrapping_add(33) as char);
            i += 1;
        }
        cs
    }

    /// The score at index `i`, if there is one.
    pub fn get(&self, i: usize) -> (r: Option<Result<Score, TryFromUByteError>>)
        ensures
            i >= self@.len() ==> r is None,
            i < self@.len() ==> (r matches Some(s) && is_score_of(s, self@[i as int])),
    {
        if i < self.0.len() {
            Some(Score::new(self.0[i]))
        } else {
            None
        }
    }

    /// The score of each raw value.
    pub fn scores(&self) -> (r: Vec<Result<Score, TryFromUByteError>>)
        ensures
            r@.len() == self@.len(),
            forall|i: int| 0 <= i < r@.len() ==> #[trigger] is_score_of(r@[i], self@[i]),
    {
        let mut r: Vec<Result<Score, TryFromUByteError>> = Vec::new();
        let mut i: usize = 0;
        while i < self.0.len()
            invariant
                i <= self@.len(),
                self@ == self.0@,
                r@.len() == i,
                forall|k: int| 0 <= k < i ==> #[trigger] is_score_of(r@[k], self@[k]),
            decreases self@.len() - i,
        {
            r.push(Score::new(self.0[i]));
            i += 1;
        }
        r
    }

    /// All scores, or the first raw value above 93.
    pub fn to_scores(&self) -> (r: Result<Vec<Score>, TryFromUByteError>)
        ensures
            (forall|i: int| 0 <= i < self@.len() ==> self@[i] <= MAX_SCORE) ==> (r matches Ok(v)
                && v@.len() == self@.len() && forall|i: int|
                0 <= i < v@.len() ==> #[trigger] v@[i].spec_value() == self@[i]),
            r matches Err(e) ==> exists|i: int|
                0 <= i < self@.len() && self@[i] > MAX_SCORE && e == TryFromUByteError(
                    #[trigger] self@[i],
                ) && forall|k: int| 0 <= k < i ==> self@[k] <= MAX_SCORE,
    {
        let mut scores: Vec<Score> = Vec::new();
        let mut i: usize = 0;
        while i < self.0.len()
            invariant
                i <= self@.len(),
                self@ == self.0@,
                scores@.len() == i,
                forall|k: int| 0 <= k < i ==> self@[k] <= MAX_SCORE,
                forall|k: int| 0 <= k < i ==> #[trigger] scores@[k].spec_value() == self@[k],
            decreases self@.len() - i,
        {
            let score = Score::new(self.0[i])?;
            scores.push(score);
            i += 1;
        }
        Ok(scores)
    }
}

} // verus!
