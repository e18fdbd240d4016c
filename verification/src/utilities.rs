use vstd::prelude::*;

verus! {

/// The character of the decimal digit `d`.
pub open spec fn digit_char(d: nat) -> char {
    ((d + 48) as u32) as char
}

/// The decimal digits of `n`, most significant first.
pub open spec fn digits(n: nat) -> Seq<char>
    decreases n,
{
    if n < 10 {
        seq![digit_char(n)]
    } else {
        digits(n / 10).push(digit_char(n % 10))
    }
}

/// `n` written in decimal, with a leading `-` when negative.
pub open spec fn decimal(n: int) -> Seq<char> {
    if n < 0 {
        seq!['-'] + digits((-n) as nat)
    } else {
        digits(n as nat)
    }
}

/// The text of the digit `d`.
fn digit_str(d: u64) -> (r: &'static str)
    requires
        d < 10,
    ensures
        r@ == seq![digit_char(d as nat)],
{
    match d {
        0 => {
            proof {
                reveal_strlit("0");
            }
            "0"
        },
        1 => {
            proof {
                reveal_strlit("1");
            }
            "1"
        },
        2 => {
            proof {
                reveal_strlit("2");
            }
            "2"
        },
        3 => {
            proof {
                reveal_strlit("3");
            }
            "3"
        },
        4 => {
            proof {
                reveal_strlit("4");
            }
            "4"
        },
        5 => {
            proof {
                reveal_strlit("5");
            }
            "5"
        },
        6 => {
            proof {
                reveal_strlit("6");
            }
            "6"
        },
        7 => {
            proof {
                reveal_strlit("7");
            }
            "7"
        },
        8 => {
            proof {
                reveal_strlit("8");
            }
            "8"
        },
        _ => {
            proof {
                reveal_strlit("9");
            }
            "9"
        },
    }
}

/// The decimal digits of `n`.
fn digits_text(n: u64) -> (r: String)
    ensures
        r@ == digits(n as nat),
    decreases n,
{
    if n < 10 {
        String::from_str(digit_str(n))
    } else {
        let mut r = digits_text(n / 10);
        r.append(digit_str(n % 10));
        r
    }
}

/// `n` written in decimal.
pub fn decimal_text(n: i32) -> (r: String)
    ensures
        r@ == decimal(n as int),
{
    if n < 0 {
        let m: i64 = -(n as i64);
        let mut r = String::from_str("-");
        proof {
            reveal_strlit("-");
        }
        let d = digits_text(m as u64);
        r.append(d.as_str());
        r
    } else {
        digits_text(n as u64)
    }
}

/// The number of jobs to run for the setting `n_jobs` on a machine with
/// `cpu_num` processors: at most `cpu_num`; a negative setting counts back
/// from `cpu_num + 1` (so `-1` is every processor); 0 and settings below
/// `-cpu_num` are refused.
pub fn determine_n_jobs(n_jobs: i32, cpu_num: usize) -> (r: Result<usize, String>)
    requires
        1 <= cpu_num <= i32::MAX,
    ensures
        n_jobs > cpu_num ==> r == Ok::<usize, String>(cpu_num),
        1 <= n_jobs <= cpu_num ==> r == Ok::<usize, String>(n_jobs as usize),
        -cpu_num <= n_jobs < 0 ==> r == Ok::<usize, String>((cpu_num + 1 + n_jobs) as usize),
        n_jobs == 0 || n_jobs < -cpu_num ==> r is Err && r->Err_0@ == "Unproper `n_jobs` = "@ + decimal(n_jobs as int),
{
    let cpu = cpu_num as i32;
    if n_jobs > cpu {
        return Ok(cpu_num);
    }
    if n_jobs <= 0 {
        if n_jobs < -cpu || n_jobs == 0 {
            let mut e = String::from_str("Unproper `n_jobs` = ");
            let d = decimal_text(n_jobs);
            e.append(d.as_str());
            return Err(e);
        }
        return Ok((cpu + (1 + n_jobs)) as usize);
    }
    Ok(n_jobs as usize)
}

} // verus!
