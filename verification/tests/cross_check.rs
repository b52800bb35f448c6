use vissort::sorting_algorithms::bubble_sort::bubble_sort_with_recording;
use vissort::sorting_algorithms::cocktail_sort::cocktail_sort_with_recording;
use vissort::sorting_algorithms::comb_sort::{comb_sort_with_recording, shrink_gap};
use vissort::sorting_algorithms::gnome_sort::gnome_sort_with_recording;
use vissort::sorting_algorithms::heap_sort::heap_sort_with_recording;
use vissort::sorting_algorithms::insertion_sort::insertion_sort_with_recording;
use vissort::sorting_algorithms::intro_sort::intro_sort_with_recording;
use vissort::sorting_algorithms::merge_sort::merge_sort_with_recording;
use vissort::sorting_algorithms::quick_sort::quick_sort_with_recording;
use vissort::sorting_algorithms::selection_sort::selection_sort_with_recording;
use vissort::sorting_algorithms::shell_sort::shell_sort_with_recording;
use vissort::sorting_algorithms::tim_sort::tim_sort_with_recording;

type Frames = Vec<Vec<u32>>;

fn inputs() -> Vec<Vec<u32>> {
    let mut all = Vec::new();
    let mut state: u64 = 0x2545_f491_4f6c_dd1d;
    for count in [0usize, 1, 2, 3, 4, 5, 6, 7, 8, 9, 12, 16, 17, 31, 32, 33, 40, 64, 65, 100, 130] {
        for spread in [3u64, 10, 1000] {
            let mut values = Vec::new();
            for _ in 0..count {
                state ^= state << 13;
                state ^= state >> 7;
                state ^= state << 17;
                values.push((state % spread) as u32);
            }
            all.push(values);
        }
        all.push((0..count as u32).collect());
        all.push((0..count as u32).rev().collect());
    }
    all
}

fn seal(frames: &mut Frames, v: Vec<u32>) {
    if frames.last() != Some(&v) {
        frames.push(v);
    }
}

fn plain_bubble(input: &[u32]) -> Frames {
    let mut v = input.to_vec();
    let mut frames = Vec::new();
    if v.is_empty() {
        return frames;
    }
    frames.push(v.clone());
    let mut again = true;
    while again {
        again = false;
        for k in 0..v.len() - 1 {
            if v[k] > v[k + 1] {
                v.swap(k, k + 1);
                frames.push(v.clone());
                again = true;
            }
        }
    }
    seal(&mut frames, v);
    frames
}

fn plain_cocktail(input: &[u32]) -> Frames {
    let mut v = input.to_vec();
    let mut frames = Vec::new();
    if v.is_empty() {
        return frames;
    }
    frames.push(v.clone());
    if v.len() > 1 {
        let (mut lo, mut hi) = (0usize, v.len() - 1);
        loop {
            let mut moved = false;
            for k in lo..hi {
                if v[k] > v[k + 1] {
                    v.swap(k, k + 1);
                    frames.push(v.clone());
                    moved = true;
                }
            }
            if !moved || hi == 0 {
                break;
            }
            moved = false;
            hi -= 1;
            let mut k = hi;
            while k > lo {
                if v[k - 1] > v[k] {
                    v.swap(k - 1, k);
                    frames.push(v.clone());
                    moved = true;
                }
                k -= 1;
            }
            lo += 1;
            if lo >= hi || !moved {
                break;
            }
        }
    }
    seal(&mut frames, v);
    frames
}

fn plain_comb(input: &[u32]) -> Frames {
    let mut v = input.to_vec();
    let mut frames = Vec::new();
    if v.is_empty() {
        return frames;
    }
    frames.push(v.clone());
    if v.len() > 1 {
        let mut gap = v.len();
        let mut moved = true;
        while gap > 1 || moved {
            gap = ((gap as f32) / 1.3f32).floor() as usize;
            if gap < 1 {
                gap = 1;
            }
            moved = false;
            let mut k = 0;
            while k + gap < v.len() {
                if v[k] > v[k + gap] {
                    v.swap(k, k + gap);
                    frames.push(v.clone());
                    moved = true;
                }
                k += 1;
            }
        }
    }
    seal(&mut frames, v);
    frames
}

fn plain_gnome(input: &[u32]) -> Frames {
    let mut v = input.to_vec();
    let mut frames = Vec::new();
    if v.is_empty() {
        return frames;
    }
    frames.push(v.clone());
    if v.len() > 1 {
        let (mut at, mut next) = (1usize, 2usize);
        while at < v.len() {
            if v[at - 1] <= v[at] {
                at = next;
                next += 1;
            } else {
                v.swap(at - 1, at);
                frames.push(v.clone());
                if at > 1 {
                    at -= 1;
                } else {
                    at = next;
                    next += 1;
                }
            }
        }
    }
    seal(&mut frames, v);
    frames
}

fn plain_sift(v: &mut Vec<u32>, start: usize, size: usize, frames: &mut Frames) {
    let mut root = start;
    loop {
        let left = 2 * root + 1;
        let right = left + 1;
        if left >= size {
            break;
        }
        let mut top = root;
        if v[left] > v[top] {
            top = left;
        }
        if right < size && v[right] > v[top] {
            top = right;
        }
        if top == root {
            break;
        }
        v.swap(root, top);
        frames.push(v.clone());
        root = top;
    }
}

fn plain_heap(input: &[u32]) -> Frames {
    let mut v = input.to_vec();
    let mut frames = Vec::new();
    if v.is_empty() {
        return frames;
    }
    frames.push(v.clone());
    let n = v.len();
    if n > 1 {
        let mut k = n / 2;
        while k > 0 {
            k -= 1;
            plain_sift(&mut v, k, n, &mut frames);
        }
    }
    let mut size = n;
    while size > 1 {
        size -= 1;
        v.swap(0, size);
        frames.push(v.clone());
        plain_sift(&mut v, 0, size, &mut frames);
    }
    seal(&mut frames, v);
    frames
}

fn plain_insertion_range(v: &mut Vec<u32>, start: usize, end: usize, frames: &mut Frames) {
    if end <= start + 1 {
        return;
    }
    for k in start + 1..end {
        let held = v[k];
        let mut at = k;
        while at > start && v[at - 1] > held {
            v[at] = v[at - 1];
            at -= 1;
            frames.push(v.clone());
        }
        v[at] = held;
    }
}

fn plain_insertion(input: &[u32]) -> Frames {
    let mut v = input.to_vec();
    let mut frames = Vec::new();
    if v.is_empty() {
        return frames;
    }
    frames.push(v.clone());
    let n = v.len();
    plain_insertion_range(&mut v, 0, n, &mut frames);
    seal(&mut frames, v);
    frames
}

fn plain_merge_ranges(v: &mut Vec<u32>, start: usize, middle: usize, end: usize, frames: &mut Frames) {
    let (mut l, mut r) = (start, middle);
    let mut taken = Vec::new();
    while l < middle && r < end {
        if v[l] <= v[r] {
            taken.push(v[l]);
            l += 1;
        } else {
            taken.push(v[r]);
            r += 1;
        }
    }
    taken.extend_from_slice(&v[l..middle]);
    taken.extend_from_slice(&v[r..end]);
    for (offset, value) in taken.into_iter().enumerate() {
        v[start + offset] = value;
        frames.push(v.clone());
    }
}

fn plain_merge_rec(v: &mut Vec<u32>, start: usize, end: usize, frames: &mut Frames) {
    if end.saturating_sub(start) <= 1 {
        return;
    }
    let middle = start + (end - start) / 2;
    plain_merge_rec(v, start, middle, frames);
    plain_merge_rec(v, middle, end, frames);
    plain_merge_ranges(v, start, middle, end, frames);
}

fn plain_merge(input: &[u32]) -> Frames {
    let mut v = input.to_vec();
    let mut frames = Vec::new();
    if v.is_empty() {
        return frames;
    }
    frames.push(v.clone());
    let n = v.len();
    if n > 1 {
        plain_merge_rec(&mut v, 0, n, &mut frames);
    }
    seal(&mut frames, v);
    frames
}

fn plain_partition(v: &mut Vec<u32>, low: usize, high: usize, frames: &mut Frames) -> usize {
    let pivot = v[high];
    let mut store = low;
    for scan in low..high {
        if v[scan] < pivot {
            if scan != store {
                v.swap(store, scan);
                frames.push(v.clone());
            }
            store += 1;
        }
    }
    if store != high {
        v.swap(store, high);
        frames.push(v.clone());
    }
    store
}

fn plain_quick_rec(v: &mut Vec<u32>, low: usize, high: usize, frames: &mut Frames) {
    if low >= high {
        return;
    }
    let p = plain_partition(v, low, high, frames);
    if p > 0 {
        plain_quick_rec(v, low, p - 1, frames);
    }
    if p < high {
        plain_quick_rec(v, p + 1, high, frames);
    }
}

fn plain_quick(input: &[u32]) -> Frames {
    let mut v = input.to_vec();
    let mut frames = Vec::new();
    if v.is_empty() {
        return frames;
    }
    frames.push(v.clone());
    let n = v.len();
    if n > 1 {
        plain_quick_rec(&mut v, 0, n - 1, &mut frames);
    }
    seal(&mut frames, v);
    frames
}

fn plain_selection(input: &[u32]) -> Frames {
    let mut v = input.to_vec();
    let mut frames = Vec::new();
    if v.is_empty() {
        return frames;
    }
    frames.push(v.clone());
    for k in 0..v.len() {
        let mut least = k;
        for c in k + 1..v.len() {
            if v[c] < v[least] {
                least = c;
            }
        }
        if least != k {
            v.swap(k, least);
            frames.push(v.clone());
        }
    }
    seal(&mut frames, v);
    frames
}

fn plain_shell(input: &[u32]) -> Frames {
    let mut v = input.to_vec();
    let mut frames = Vec::new();
    if v.is_empty() {
        return frames;
    }
    frames.push(v.clone());
    let mut gap = v.len() / 2;
    while gap > 0 {
        for k in gap..v.len() {
            let mut at = k;
            while at >= gap && v[at - gap] > v[at] {
                v.swap(at, at - gap);
                frames.push(v.clone());
                at -= gap;
            }
        }
        gap /= 2;
    }
    seal(&mut frames, v);
    frames
}

fn plain_intro_rec(v: &mut Vec<u32>, start: usize, end: usize, depth: usize, frames: &mut Frames) {
    if end.saturating_sub(start) <= 1 {
        return;
    }
    if depth == 0 {
        let part = v[start..end].to_vec();
        for (k, frame) in plain_heap(&part).into_iter().enumerate() {
            if k == 0 || frame.len() != end - start {
                continue;
            }
            v[start..end].clone_from_slice(&frame);
            frames.push(v.clone());
        }
        return;
    }
    let p = plain_partition(v, start, end - 1, frames);
    if p > start {
        plain_intro_rec(v, start, p, depth - 1, frames);
    }
    if p + 1 < end {
        plain_intro_rec(v, p + 1, end, depth - 1, frames);
    }
}

fn plain_intro(input: &[u32]) -> Frames {
    let mut v = input.to_vec();
    let mut frames = Vec::new();
    if v.is_empty() {
        return frames;
    }
    frames.push(v.clone());
    let n = v.len();
    if n > 1 {
        let depth = (2.0 * (n as f64).log2()).floor() as usize;
        plain_intro_rec(&mut v, 0, n, depth, &mut frames);
    }
    seal(&mut frames, v);
    frames
}

fn plain_tim(input: &[u32]) -> Frames {
    let mut v = input.to_vec();
    let mut frames = Vec::new();
    if v.is_empty() {
        return frames;
    }
    frames.push(v.clone());
    let n = v.len();
    if n > 1 {
        let run = n.min(32);
        let mut start = 0;
        while start < n {
            let end = (start + run).min(n);
            plain_insertion_range(&mut v, start, end, &mut frames);
            start = end;
        }
        let mut size = run;
        while size < n {
            let mut from = 0;
            while from < n {
                let middle = (from + size).min(n);
                if middle >= n {
                    break;
                }
                let end = (from + 2 * size).min(n);
                plain_merge_ranges(&mut v, from, middle, end, &mut frames);
                from += 2 * size;
            }
            size *= 2;
        }
    }
    seal(&mut frames, v);
    frames
}

fn compare(name: &str, recorder: fn(&[u32], &mut Frames), plain: fn(&[u32]) -> Frames) {
    for input in inputs() {
        let mut frames = Vec::new();
        recorder(&input, &mut frames);
        assert_eq!(frames, plain(&input), "{} on {:?}", name, input);
    }
}

#[test]
fn bubble_recording_matches_plain_sort() {
    compare("bubble", bubble_sort_with_recording, plain_bubble);
}

#[test]
fn cocktail_recording_matches_plain_sort() {
    compare("cocktail", cocktail_sort_with_recording, plain_cocktail);
}

#[test]
fn comb_recording_matches_plain_sort() {
    compare("comb", comb_sort_with_recording, plain_comb);
}

#[test]
fn gnome_recording_matches_plain_sort() {
    compare("gnome", gnome_sort_with_recording, plain_gnome);
}

#[test]
fn heap_recording_matches_plain_sort() {
    compare("heap", heap_sort_with_recording, plain_heap);
}

#[test]
fn insertion_recording_matches_plain_sort() {
    compare("insertion", insertion_sort_with_recording, plain_insertion);
}

#[test]
fn intro_recording_matches_plain_sort() {
    compare("intro", intro_sort_with_recording, plain_intro);
}

#[test]
fn merge_recording_matches_plain_sort() {
    compare("merge", merge_sort_with_recording, plain_merge);
}

#[test]
fn quick_recording_matches_plain_sort() {
    compare("quick", quick_sort_with_recording, plain_quick);
}

#[test]
fn selection_recording_matches_plain_sort() {
    compare("selection", selection_sort_with_recording, plain_selection);
}

#[test]
fn shell_recording_matches_plain_sort() {
    compare("shell", shell_sort_with_recording, plain_shell);
}

#[test]
fn tim_recording_matches_plain_sort() {
    compare("tim", tim_sort_with_recording, plain_tim);
}

#[test]
fn gap_shrinks_as_division_by_thirteen_tenths() {
    for gap in 1usize..=200_000 {
        let mut expected = ((gap as f32) / 1.3f32).floor() as usize;
        if expected < 1 {
            expected = 1;
        }
        assert_eq!(shrink_gap(gap), expected, "{}", gap);
    }
}
