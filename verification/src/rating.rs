//! The final score: the weighted combination of the three measures, and the
//! star rating with its feedback line.

use vstd::prelude::*;

verus! {

/// A fraction `num / den`. The three measures are fractions between 0 and 1.
#[derive(Clone, Copy, Debug, PartialEq, Eq, Structural)]
pub struct Ratio {
    pub num: u32,
    pub den: u32,
}

impl Ratio {
    /// Whether the fraction has a value: its denominator is not 0.
    pub open spec fn well_formed(self) -> bool {
        self.den > 0
    }

    /// Whether the fraction lies between 0 and 1.
    pub open spec fn is_share(self) -> bool {
        self.den > 0 && self.num <= self.den
    }

    /// The fraction in hundredths, rounded to the nearest whole number (a
    /// half rounds up) and cut off at 100.
    pub open spec fn rounded_percent(self) -> int {
        let exact = (200 * self.num + self.den) / (2 * self.den);
        if exact > 100 {
            100
        } else {
            exact
        }
    }

    /// The fraction 0.
    pub fn zero() -> (r: Ratio)
        ensures
            r == (Ratio { num: 0, den: 1 }),
    {
        Ratio { num: 0, den: 1 }
    }

    /// The fraction as a percentage, rounded to the nearest whole number and
    /// cut off at 100.
    pub fn percent(&self) -> (p: u8)
        requires
            self.well_formed(),
        ensures
            p == self.rounded_percent(),
    {
        let exact: u64 = (200 * (self.num as u64) + self.den as u64) / (2 * (self.den as u64));
        if exact > 100 {
            100
        } else {
            exact as u8
        }
    }
}

/// The record of one scoring: the score from 0 to 100, its stars from 1 to 5
/// with their feedback line, and the three measures as percentages.
#[derive(Debug)]
pub struct ScoringResult {
    pub score: u8,
    pub stars: u8,
    pub feedback: String,
    pub coverage: u8,
    pub accuracy: u8,
    pub similarity: u8,
}

/// The stars for a score: 5 from 80 to 100, 4 from 65, 3 from 50, 2 from 30,
/// and 1 for everything else.
pub open spec fn star_count(score: u8) -> u8 {
    if 80 <= score <= 100 {
        5
    } else if 65 <= score <= 79 {
        4
    } else if 50 <= score <= 64 {
        3
    } else if 30 <= score <= 49 {
        2
    } else {
        1
    }
}

/// The feedback line that goes with a number of stars.
pub open spec fn feedback_text(stars: u8) -> Seq<char> {
    if stars == 5 {
        "Amazing! Perfect!"@
    } else if stars == 4 {
        "Great job!"@
    } else if stars == 3 {
        "Good work!"@
    } else if stars == 2 {
        "Nice try!"@
    } else {
        "Keep practicing!"@
    }
}

/// The weighted sum of the three measures, in hundredths: 35 parts of
/// coverage, 35 of accuracy and 30 of similarity, as a fraction with the
/// numerator first.
pub open spec fn weighted_sum(coverage: Ratio, accuracy: Ratio, similarity: Ratio) -> (int, int) {
    (
        35 * (coverage.num * accuracy.den * similarity.den) + 35 * (accuracy.num * coverage.den
            * similarity.den) + 30 * (similarity.num * coverage.den * accuracy.den),
        coverage.den * accuracy.den * similarity.den,
    )
}

/// The final score: the weighted sum rounded to the nearest whole number (a
/// half rounds up), and cut off at 100.
pub open spec fn final_score(coverage: Ratio, accuracy: Ratio, similarity: Ratio) -> int {
    let (n, d) = weighted_sum(coverage, accuracy, similarity);
    let exact = (2 * n + d) / (2 * d);
    if exact > 100 {
        100
    } else {
        exact
    }
}

/// The star rating of a score, with its feedback line.
pub fn get_star_rating(score: u8) -> (rating: (u8, String))
    ensures
        rating.0 == star_count(score),
        rating.1@ == feedback_text(rating.0),
        1 <= rating.0 <= 5,
{
    if 80 <= score && score <= 100 {
        (5, "Amazing! Perfect!".to_owned())
    } else if 65 <= score && score <= 79 {
        (4, "Great job!".to_owned())
    } else if 50 <= score && score <= 64 {
        (3, "Good work!".to_owned())
    } else if 30 <= score && score <= 49 {
        (2, "Nice try!".to_owned())
    } else {
        (1, "Keep practicing!".to_owned())
    }
}

/// Combines the three measures into the record of the scoring. The score is
/// 35 hundredths of coverage, 35 of accuracy and 30 of similarity, rounded
/// to a whole number from 0 to 100; stars and feedback follow from it, and
/// each measure is given as a rounded percentage.
pub fn combine_scores(coverage: Ratio, accuracy: Ratio, similarity: Ratio) -> (result:
    ScoringResult)
    requires
        coverage.well_formed(),
        accuracy.well_formed(),
        similarity.well_formed(),
    ensures
        result.score == final_score(coverage, accuracy, similarity),
        result.score <= 100,
        result.stars == star_count(result.score),
        result.feedback@ == feedback_text(result.stars),
        result.coverage == coverage.rounded_percent(),
        result.accuracy == accuracy.rounded_percent(),
        result.similarity == similarity.rounded_percent(),
{
    let cn: u128 = coverage.num as u128;
    let cd: u128 = coverage.den as u128;
    let an: u128 = accuracy.num as u128;
    let ad: u128 = accuracy.den as u128;
    let sn: u128 = similarity.num as u128;
    let sd: u128 = similarity.den as u128;
    proof {
        lemma_product_bounded(cn as int, ad as int, sd as int);
        lemma_product_bounded(an as int, cd as int, sd as int);
        lemma_product_bounded(sn as int, cd as int, ad as int);
        lemma_product_bounded(cd as int, ad as int, sd as int);
    }
    let n: u128 = 35 * (cn * ad * sd) + 35 * (an * cd * sd) + 30 * (sn * cd * ad);
    let d: u128 = cd * ad * sd;
    let exact: u128 = (2 * n + d) / (2 * d);
    let score: u8 = if exact > 100 {
        100
    } else {
        exact as u8
    };
    let (stars, feedback) = get_star_rating(score);
    ScoringResult {
        score,
        stars,
        feedback,
        coverage: coverage.percent(),
        accuracy: accuracy.percent(),
        similarity: similarity.percent(),
    }
}

/// A product of three 32-bit values stays far below the 128-bit range, and
/// is positive where its factors are.
proof fn lemma_product_bounded(a: int, b: int, c: int)
    requires
        0 <= a <= 0xffff_ffff,
        0 <= b <= 0xffff_ffff,
        0 <= c <= 0xffff_ffff,
    ensures
        0 <= a * b <= 0xffff_ffff * 0xffff_ffff,
        0 <= a * b * c <= 0xffff_ffff * 0xffff_ffff * 0xffff_ffff,
        a > 0 && b > 0 && c > 0 ==> a * b * c > 0,
{
    assert(0 <= a * b <= 0xffff_ffff * 0xffff_ffff) by (nonlinear_arith)
        requires
            0 <= a <= 0xffff_ffff,
            0 <= b <= 0xffff_ffff,
    ;
    let ab = a * b;
    assert(0 <= ab * c <= (0xffff_ffff * 0xffff_ffff) * 0xffff_ffff) by (nonlinear_arith)
        requires
            0 <= ab <= 0xffff_ffff * 0xffff_ffff,
            0 <= c <= 0xffff_ffff,
    ;
    assert(a > 0 && b > 0 && c > 0 ==> ab * c > 0) by (nonlinear_arith)
        requires
            ab == a * b,
    ;
}

} // verus!
