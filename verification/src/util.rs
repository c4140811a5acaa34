use vstd::prelude::*;

use crate::text::{decimal, push_char, push_decimal};

verus! {

/// Two-digit zero-padded decimal (`{:02}`).
pub open spec fn pad2(n: nat) -> Seq<char> {
    if n < 10 {
        seq!['0'] + decimal(n)
    } else {
        decimal(n)
    }
}

fn push_pad2(s: &mut String, n: u64)
    ensures
        final(s)@ == old(s)@ + pad2(n as nat),
{
    if n < 10 {
        push_char(s, '0');
    }
    push_decimal(s, n);
    proof {
        if n < 10 {
            assert(final(s)@ =~= old(s)@ + pad2(n as nat));
        }
    }
}

/// Short duration text for an ETA: "`h`h`m`m" from an hour on, "`m`m`s`s"
/// from a minute on, "`s`s" below.
pub open spec fn short_duration(seconds: nat) -> Seq<char> {
    let hours = seconds / 3600;
    let minutes = (seconds % 3600) / 60;
    let secs = seconds % 60;
    if hours > 0 {
        decimal(hours) + seq!['h'] + decimal(minutes) + seq!['m']
    } else if minutes > 0 {
        decimal(minutes) + seq!['m'] + decimal(secs) + seq!['s']
    } else {
        decimal(secs) + seq!['s']
    }
}

/// Formats a duration in whole seconds for an ETA display.
pub fn format_duration_short(seconds: u64) -> (r: String)
    ensures
        r@ == short_duration(seconds as nat),
{
    let hours = seconds / 3600;
    let minutes = (seconds % 3600) / 60;
    let secs = seconds % 60;
    let mut s = String::new();
    if hours > 0 {
        push_decimal(&mut s, hours);
        push_char(&mut s, 'h');
        push_decimal(&mut s, minutes);
        push_char(&mut s, 'm');
    } else if minutes > 0 {
        push_decimal(&mut s, minutes);
        push_char(&mut s, 'm');
        push_decimal(&mut s, secs);
        push_char(&mut s, 's');
    } else {
        push_decimal(&mut s, secs);
        push_char(&mut s, 's');
    }
    proof {
        assert(s@ =~= short_duration(seconds as nat));
    }
    s
}

/// Clock-style duration: "`h`:`mm`:`ss`" from an hour on, "`m`:`ss`" below.
pub open spec fn clock_duration(total: nat) -> Seq<char> {
    let hours = total / 3600;
    let minutes = (total % 3600) / 60;
    let secs = total % 60;
    if hours > 0 {
        decimal(hours) + seq![':'] + pad2(minutes) + seq![':'] + pad2(secs)
    } else {
        decimal(minutes) + seq![':'] + pad2(secs)
    }
}

/// Formats a duration of whole seconds as a clock: hours only when there
/// are any, minutes and seconds two digits wide after a colon.
pub fn format_clock(total_seconds: u64) -> (r: String)
    ensures
        r@ == clock_duration(total_seconds as nat),
{
    let hours = total_seconds / 3600;
    let minutes = (total_seconds % 3600) / 60;
    let secs = total_seconds % 60;
    let mut s = String::new();
    if hours > 0 {
        push_decimal(&mut s, hours);
        push_char(&mut s, ':');
        push_pad2(&mut s, minutes);
        push_char(&mut s, ':');
        push_pad2(&mut s, secs);
    } else {
        push_decimal(&mut s, minutes);
        push_char(&mut s, ':');
        push_pad2(&mut s, secs);
    }
    proof {
        assert(s@ =~= clock_duration(total_seconds as nat));
    }
    s
}

/// The message for a missing external tool.
pub fn external_tool_error(tool: &str, purpose: &str) -> (r: String)
    ensures
        r@ == "External tool '"@ + tool@ + "' required for "@ + purpose@ + " is not available"@,
{
    let mut s = String::from_str("External tool '");
    s.append(tool);
    s.append("' required for ");
    s.append(purpose);
    s.append(" is not available");
    s
}

/// How many analysed files are stored per database batch and how many
/// files are started per round.
#[derive(Debug, Clone, Copy, PartialEq, Eq)]
pub struct BatchPlan {
    pub batch_size: usize,
    pub chunk_size: usize,
}

/// The batch size is twice the job count, kept within 10..=50; a round
/// starts four files per job, and at least a batch.
pub fn plan_batches(jobs: usize) -> (r: BatchPlan)
    requires
        jobs * 4 <= usize::MAX,
    ensures
        r.batch_size == if jobs * 2 < 10 {
            10
        } else if jobs * 2 > 50 {
            50
        } else {
            jobs * 2
        },
        r.chunk_size == if jobs * 4 > r.batch_size {
            jobs * 4
        } else {
            r.batch_size as int
        },
{
    let twice = jobs * 2;
    let at_least = if twice > 10 {
        twice
    } else {
        10
    };
    let batch_size = if at_least < 50 {
        at_least
    } else {
        50
    };
    let four = jobs * 4;
    let chunk_size = if four > batch_size {
        four
    } else {
        batch_size
    };
    BatchPlan { batch_size, chunk_size }
}

/// Whether the analysed files waiting to be stored are written to the
/// database now: at the end of a round when any are waiting, otherwise once
/// a whole batch is waiting.
pub fn batch_step(pending: usize, batch_size: usize, chunk_done: bool) -> (flush: bool)
    ensures
        flush == (if chunk_done {
            pending > 0
        } else {
            pending >= batch_size
        }),
{
    if chunk_done {
        pending > 0
    } else {
        pending >= batch_size
    }
}

/// The number of unordered pairs among `n` files, `n * (n - 1) / 2`.
pub fn comparison_count(n: usize) -> (r: usize)
    requires
        n >= 1,
        n * (n - 1) <= usize::MAX,
    ensures
        r == n * (n - 1) / 2,
{
    n * (n - 1) / 2
}

/// Sum of a sequence of sizes.
pub open spec fn sum_sizes(s: Seq<u64>) -> nat
    decreases s.len(),
{
    if s.len() == 0 {
        0
    } else {
        sum_sizes(s.drop_last()) + s.last() as nat
    }
}

proof fn lemma_sum_prefix(s: Seq<u64>, i: int)
    requires
        0 <= i <= s.len(),
    ensures
        sum_sizes(s.take(i)) <= sum_sizes(s),
    decreases s.len(),
{
    if i < s.len() {
        assert(s.drop_last().take(i) =~= s.take(i));
        lemma_sum_prefix(s.drop_last(), i);
    } else {
        assert(s.take(i) =~= s);
    }
}

/// The total of the sizes.
pub fn total_size(sizes: &Vec<u64>) -> (r: u64)
    requires
        sum_sizes(sizes@) <= u64::MAX,
    ensures
        r == sum_sizes(sizes@),
{
    let mut total: u64 = 0;
    let mut i: usize = 0;
    while i < sizes.len()
        invariant
            0 <= i <= sizes@.len(),
            total == sum_sizes(sizes@.take(i as int)),
            sum_sizes(sizes@) <= u64::MAX,
        decreases sizes@.len() - i,
    {
        proof {
            assert(sizes@.take(i + 1).drop_last() =~= sizes@.take(i as int));
            lemma_sum_prefix(sizes@, i + 1);
        }
        total = total + sizes[i];
        i = i + 1;
    }
    proof {
        assert(sizes@.take(i as int) =~= sizes@);
    }
    total
}

} // verus!
