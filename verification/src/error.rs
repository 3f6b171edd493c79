//! The ways in which making a key fails.

use vstd::prelude::*;
use vstd::string::*;

verus! {

/// Why no key was made.
#[derive(Debug, Clone, PartialEq, Eq)]
pub enum CacheKeyError {
    /// The patterns select more files than the limit allows.
    TooManyFiles { count: usize, limit: usize },
    /// A selected file could not be read.
    FileReadError { path: String },
    /// A pattern is not a well-formed glob.
    PatternMatchError { pattern: String },
    /// The digest could not be computed for a reason other than reading.
    HashCalculationError,
}

/// A [`CacheKeyError`] as the contracts read it.
pub enum Failure {
    TooManyFiles { count: nat, limit: nat },
    FileReadError { path: Seq<char> },
    PatternMatchError { pattern: Seq<char> },
    HashCalculationError,
}

impl View for CacheKeyError {
    type V = Failure;

    open spec fn view(&self) -> Failure {
        match self {
            CacheKeyError::TooManyFiles { count, limit } => Failure::TooManyFiles {
                count: *count as nat,
                limit: *limit as nat,
            },
            CacheKeyError::FileReadError { path } => Failure::FileReadError { path: path@ },
            CacheKeyError::PatternMatchError { pattern } => Failure::PatternMatchError {
                pattern: pattern@,
            },
            CacheKeyError::HashCalculationError => Failure::HashCalculationError,
        }
    }
}

/// The character that stands for a digit below ten.
pub open spec fn digit(d: nat) -> char {
    seq!['0', '1', '2', '3', '4', '5', '6', '7', '8', '9'][d as int]
}

/// `n` written in base ten, without leading zeros.
pub open spec fn decimal(n: nat) -> Seq<char>
    decreases n,
{
    if n < 10 {
        seq![digit(n)]
    } else {
        decimal(n / 10).push(digit(n % 10))
    }
}

/// What [`CacheKeyError::message`] says of a failure.
pub open spec fn message_of(failure: Failure) -> Seq<char> {
    match failure {
        Failure::TooManyFiles { count, limit } => "ファイル数が制限を超えています: "@ + decimal(
            count,
        ) + " > "@ + decimal(limit),
        Failure::FileReadError { path } => "ファイルの読み込みに失敗しました: "@ + path,
        Failure::PatternMatchError { pattern } => "パターンマッチングに失敗しました: "@ + pattern,
        Failure::HashCalculationError => "ハッシュ計算に失敗しました"@,
    }
}

/// The one-character string of a digit.
fn digit_text(d: usize) -> (text: &'static str)
    requires
        d < 10,
    ensures
        text@ == seq![digit(d as nat)],
{
    proof {
        reveal_strlit("0");
        reveal_strlit("1");
        reveal_strlit("2");
        reveal_strlit("3");
        reveal_strlit("4");
        reveal_strlit("5");
        reveal_strlit("6");
        reveal_strlit("7");
        reveal_strlit("8");
        reveal_strlit("9");
    }
    let text = if d == 0 {
        "0"
    } else if d == 1 {
        "1"
    } else if d == 2 {
        "2"
    } else if d == 3 {
        "3"
    } else if d == 4 {
        "4"
    } else if d == 5 {
        "5"
    } else if d == 6 {
        "6"
    } else if d == 7 {
        "7"
    } else if d == 8 {
        "8"
    } else {
        "9"
    };
    assert(text@ =~= seq![digit(d as nat)]);
    text
}

/// Writes a number in base ten.
pub fn to_decimal(n: usize) -> (text: String)
    ensures
        text@ == decimal(n as nat),
    decreases n,
{
    if n < 10 {
        String::from_str(digit_text(n))
    } else {
        let mut text = to_decimal(n / 10);
        text.append(digit_text(n % 10));
        assert(text@ =~= decimal((n / 10) as nat).push(digit((n % 10) as nat)));
        text
    }
}

impl CacheKeyError {
    /// The failure in words, with the numbers and names it carries.
    pub fn message(&self) -> (text: String)
        ensures
            text@ == message_of(self@),
    {
        match self {
            CacheKeyError::TooManyFiles { count, limit } => {
                let mut text = String::from_str("ファイル数が制限を超えています: ");
                text.append(to_decimal(*count).as_str());
                text.append(" > ");
                text.append(to_decimal(*limit).as_str());
                text
            },
            CacheKeyError::FileReadError { path } => {
                let mut text = String::from_str("ファイルの読み込みに失敗しました: ");
                text.append(path.as_str());
                text
            },
            CacheKeyError::PatternMatchError { pattern } => {
                let mut text = String::from_str("パターンマッチングに失敗しました: ");
                text.append(pattern.as_str());
                text
            },
            CacheKeyError::HashCalculationError => String::from_str("ハッシュ計算に失敗しました"),
        }
    }
}

} // verus!
