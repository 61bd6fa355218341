use vstd::prelude::*;

verus! {

/// Makes overlapping context windows, each paired with the token that
/// follows it as the target.
///
/// Window `i` holds tokens `i .. i + sequence_length` and its target is
/// token `i + sequence_length`.
pub fn sliding_windows(tokens: &[u32], sequence_length: usize) -> (windows: Vec<(&[u32], u32)>)
    requires
        sequence_length < usize::MAX,
    ensures
        windows.len() == if tokens.len() > sequence_length {
            tokens.len() - sequence_length
        } else {
            0
        },
        forall|i: int|
            #![trigger windows[i]]
            0 <= i < windows.len() ==> windows[i].0@ == tokens@.subrange(i, i + sequence_length)
                && windows[i].1 == tokens@[i + sequence_length],
{
    let mut windows: Vec<(&[u32], u32)> = Vec::new();
    if tokens.len() <= sequence_length {
        return windows;
    }
    let count = tokens.len() - sequence_length;
    for start in 0..count
        invariant
            count == tokens.len() - sequence_length,
            windows.len() == start,
            forall|i: int|
                #![trigger windows[i]]
                0 <= i < start ==> windows[i].0@ == tokens@.subrange(i, i + sequence_length)
                    && windows[i].1 == tokens@[i + sequence_length],
    {
        let sequence = &tokens[start..start + sequence_length];
        let target = tokens[start + sequence_length];
        windows.push((sequence, target));
    }
    windows
}

} // verus!
