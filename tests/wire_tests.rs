use triad::wire::{decode_state, encode_state, AmplitudeRecord, QubitRecord, StateBody, StateFrame, WireError};

#[test]
fn amplitude_frame_layout() {
    let frame = StateFrame {
        qubit_count: 2,
        body: StateBody::Amplitudes(vec![
            AmplitudeRecord { index: 0, re: 707, im: 0 },
            AmplitudeRecord { index: 3, re: (-707i16) as u16, im: 1 },
        ]),
    };
    let bytes = encode_state(&frame);
    assert_eq!(
        bytes,
        vec![2, 0, 0, 0, 1, 0, 0, 0, 0, 0, 0, 0, 0xc3, 0x02, 0, 0, 3, 0, 0, 0, 0x3d, 0xfd, 1, 0]
    );
    assert_eq!(decode_state(&bytes), Ok(frame));
}

#[test]
fn qubit_frame_round_trip() {
    let frame = StateFrame {
        qubit_count: 3,
        body: StateBody::Qubits(vec![
            QubitRecord { alpha_re: 1.0f32.to_bits(), alpha_im: 0, beta_re: 0, beta_im: 0 },
            QubitRecord { alpha_re: 0.5f32.to_bits(), alpha_im: 7, beta_re: 0x8000_0001, beta_im: u32::MAX },
        ]),
    };
    let bytes = encode_state(&frame);
    assert_eq!(bytes.len(), 8 + 32);
    assert_eq!(bytes[4], 0);
    assert_eq!(decode_state(&bytes), Ok(frame));
}

#[test]
fn decoding_rejects_bad_headers() {
    assert_eq!(decode_state(&vec![1, 0, 0, 0, 0, 0, 0]), Err(WireError::TooShort));
    assert_eq!(decode_state(&vec![0, 0, 0, 0, 0, 0, 0, 0]), Err(WireError::BadQubitCount));
    assert_eq!(decode_state(&vec![31, 0, 0, 0, 0, 0, 0, 0]), Err(WireError::BadQubitCount));
}

#[test]
fn decoding_skips_out_of_range_indices() {
    // one qubit: index 5 is outside; its 4 bytes are skipped and reading
    // resumes at the next 4 bytes, which hold index 1
    let bytes = vec![1, 0, 0, 0, 1, 0, 0, 0, 5, 0, 0, 0, 1, 0, 0, 0, 10, 0, 20, 0];
    assert_eq!(
        decode_state(&bytes),
        Ok(StateFrame {
            qubit_count: 1,
            body: StateBody::Amplitudes(vec![AmplitudeRecord { index: 1, re: 10, im: 20 }]),
        })
    );
}

#[test]
fn decoding_reads_at_most_one_record_per_qubit() {
    let mut bytes = vec![1, 0, 0, 0, 0, 0, 0, 0];
    bytes.extend(vec![9u8; 32]);
    match decode_state(&bytes) {
        Ok(StateFrame { qubit_count: 1, body: StateBody::Qubits(rs) }) => assert_eq!(rs.len(), 1),
        other => panic!("unexpected {:?}", other),
    }
}
