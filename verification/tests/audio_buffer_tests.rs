use tuner_dsp::ring_buffer::AudioBuffer;
use tuner_dsp::BLOCK_SIZE;

const SAMPLING_RATE: f32 = 44100.0;

fn sine_wave(tgt_freq: f32, duration: f32, sampling_rate: f32) -> Vec<f32> {
    let total_samples = (sampling_rate * duration) as usize;
    (0..total_samples)
        .map(|n| {
            let t = (n as f32) / sampling_rate;
            (2.0 * std::f32::consts::PI * tgt_freq * t).sin()
        })
        .collect()
}

fn read_all(buf: &AudioBuffer<f32>) -> Vec<f32> {
    let mut out = vec![0.0f32; BLOCK_SIZE];
    buf.read_block_to(&mut out);
    out
}

#[test]
fn test_audio_buffer_init() {
    let new_audio_buffer = AudioBuffer::new(0.0f32);
    assert_eq!(new_audio_buffer.write_index(), 0);
    assert_eq!(new_audio_buffer.data().len(), BLOCK_SIZE);
}

#[test]
fn test_audio_buffer_write() {
    let mut nab = AudioBuffer::new(0.0f32);
    let to_write = vec![1.0f32; 128];
    nab.push(&to_write);
    assert_eq!(nab.write_index(), 128);
}

#[test]
#[allow(non_snake_case)]
fn test_audio_buffer_write_larger_than_BLOCK_SIZE() {
    let mut nab = AudioBuffer::new(0.0f32);
    let to_write: Vec<f32> = (0..5000).map(|i| i as f32).collect();
    nab.push(&to_write);
    assert_eq!(nab.write_index(), 0);
    let result: Vec<f32> = (904..5000).map(|j| j as f32).collect();
    assert_eq!(nab.data(), &result[..]);
}

#[test]
fn test_audio_buffer_read() {
    let mut nab = AudioBuffer::new(0.0f32);
    let to_write: Vec<f32> = (0..4096).map(|i| i as f32).collect();
    nab.push(&to_write);
    assert_eq!(nab.write_index(), 0);
    let mut read_buffer = [0.0f32; BLOCK_SIZE];
    nab.read_block_to(&mut read_buffer);
    println!("read: {:?}", read_buffer);
}

#[test]
fn wave_buffer_performance() {
    let wave = sine_wave(440.0, 0.1, SAMPLING_RATE);
    assert_eq!(wave.len(), 4410);

    let mut buffer = AudioBuffer::new(0.0f32);
    let chunk_size = 128;
    let mut callbacks_simulated = 0;

    for chunk in wave.chunks(chunk_size) {
        buffer.push(chunk);
        callbacks_simulated += 1;
    }

    assert_eq!(callbacks_simulated, 35);
    assert_eq!(buffer.write_index(), 314);

    buffer.clear_buffer();
    assert_eq!(buffer.write_index(), 0);
}

#[test]
fn read_gives_oldest_sample_first_after_wrap() {
    let mut buf = AudioBuffer::new(0u32);
    let first: Vec<u32> = (1..=4000).collect();
    buf.push(&first);
    assert_eq!(buf.write_index(), 4000);
    let second: Vec<u32> = (4001..=4200).collect();
    buf.push(&second);
    // 4200 - 4096 = 104 samples went round to the start of the storage
    assert_eq!(buf.write_index(), 104);
    let mut out = vec![0u32; BLOCK_SIZE];
    buf.read_block_to(&mut out);
    let expected: Vec<u32> = (105..=4200).collect();
    assert_eq!(out, expected);
    assert_eq!(buf.data()[0], 4097);
    assert_eq!(buf.data()[103], 4200);
    assert_eq!(buf.data()[104], 105);
}

#[test]
fn fresh_buffer_reads_silence_then_pushed_samples() {
    let mut buf = AudioBuffer::new(-1i16);
    let mut out = vec![0i16; BLOCK_SIZE];
    buf.read_block_to(&mut out);
    assert!(out.iter().all(|&x| x == -1));
    buf.push(&[7, 8, 9]);
    buf.read_block_to(&mut out);
    assert_eq!(&out[BLOCK_SIZE - 3..], &[7, 8, 9]);
    assert!(out[..BLOCK_SIZE - 3].iter().all(|&x| x == -1));
}

#[test]
fn empty_push_changes_nothing() {
    let mut buf = AudioBuffer::new(0u8);
    buf.push(&[1, 2, 3]);
    let before = buf.data().to_vec();
    buf.push(&[]);
    assert_eq!(buf.write_index(), 3);
    assert_eq!(buf.data(), &before[..]);
}

#[test]
fn push_of_exactly_one_block_at_offset() {
    let mut buf = AudioBuffer::new(0u32);
    buf.push(&[100, 101]);
    let block: Vec<u32> = (0..4096).collect();
    buf.push(&block);
    // a full block keeps the write position where it was
    assert_eq!(buf.write_index(), 2);
    let mut out = vec![0u32; BLOCK_SIZE];
    buf.read_block_to(&mut out);
    assert_eq!(out, block);
}

#[test]
fn pushing_in_pieces_reads_as_one_push() {
    let samples: Vec<u32> = (0..10_000).map(|i| i * 3 + 1).collect();
    let mut whole = AudioBuffer::new(0u32);
    whole.push(&samples[..2500]);
    whole.push(&samples[2500..]);
    let mut pieces = AudioBuffer::new(0u32);
    for chunk in samples.chunks(37) {
        pieces.push(chunk);
    }
    let mut a = vec![0u32; BLOCK_SIZE];
    let mut b = vec![0u32; BLOCK_SIZE];
    whole.read_block_to(&mut a);
    pieces.read_block_to(&mut b);
    assert_eq!(a, b);
    assert_eq!(a, samples[10_000 - BLOCK_SIZE..].to_vec());
}

#[test]
fn long_push_replaces_the_window() {
    let mut buf = AudioBuffer::new(0u32);
    buf.push(&[5, 6, 7, 8, 9]);
    let long: Vec<u32> = (0..6000).collect();
    buf.push(&long);
    assert_eq!(buf.write_index(), 5);
    let mut out = vec![0u32; BLOCK_SIZE];
    buf.read_block_to(&mut out);
    assert_eq!(out, long[6000 - BLOCK_SIZE..].to_vec());
}

#[test]
fn clear_buffer_restores_silence() {
    let mut buf = AudioBuffer::new(0.5f32);
    let samples: Vec<f32> = (0..3000).map(|i| i as f32).collect();
    buf.push(&samples);
    buf.clear_buffer();
    assert_eq!(buf.write_index(), 0);
    assert!(buf.data().iter().all(|&x| x == 0.5));
    assert!(read_all(&buf).iter().all(|&x| x == 0.5));
}
