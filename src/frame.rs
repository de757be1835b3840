use crate::codec::append_bytes;
use vstd::bytes::*;
use vstd::prelude::*;
use vstd::slice::slice_subrange;

verus! {

/// Bytes in a telemetry frame on the wire.
pub const PACKET_SIZE: usize = 113;

/// One telemetry frame. Floating-point readings are held as their IEEE-754
/// bit patterns, exactly as they travel on the wire.
#[derive(Debug, Clone, Copy, PartialEq, Eq)]
pub struct TelemetryPacket {
    /// IEEE-754 bit pattern of the latitude in degrees (f64).
    pub latitude_bits: u64,
    /// IEEE-754 bit pattern of the longitude in degrees (f64).
    pub longitude_bits: u64,
    /// IEEE-754 bit pattern of the GPS altitude in metres (f32).
    pub altitude_gps_bits: u32,
    /// IEEE-754 bit pattern of the ground speed in m/s (f32).
    pub ground_speed_bits: u32,
    /// IEEE-754 bit pattern of the heading in degrees (f32).
    pub heading_bits: u32,
    pub num_satellites: u8,
    pub gps_fix_type: u8,
    /// IEEE-754 bit pattern of the barometric altitude in metres (f32).
    pub altitude_baro_bits: u32,
    /// IEEE-754 bit pattern of the vertical speed in m/s (f32).
    pub vertical_speed_bits: u32,
    /// IEEE-754 bit pattern of the temperature (f32).
    pub temperature_bits: u32,
    /// IEEE-754 bit pattern of the roll (f32).
    pub roll_bits: u32,
    /// IEEE-754 bit pattern of the pitch (f32).
    pub pitch_bits: u32,
    /// IEEE-754 bit pattern of the yaw (f32).
    pub yaw_bits: u32,
    /// IEEE-754 bit pattern of the gyro x (f32).
    pub gyro_x_bits: u32,
    /// IEEE-754 bit pattern of the gyro y (f32).
    pub gyro_y_bits: u32,
    /// IEEE-754 bit pattern of the gyro z (f32).
    pub gyro_z_bits: u32,
    /// IEEE-754 bit pattern of the accel x (f32).
    pub accel_x_bits: u32,
    /// IEEE-754 bit pattern of the accel y (f32).
    pub accel_y_bits: u32,
    /// IEEE-754 bit pattern of the accel z (f32).
    pub accel_z_bits: u32,
    /// IEEE-754 bit pattern of the battery voltage (f32).
    pub battery_voltage_bits: u32,
    /// IEEE-754 bit pattern of the battery current (f32).
    pub battery_current_bits: u32,
    /// IEEE-754 bit pattern of the battery power (f32).
    pub battery_power_bits: u32,
    /// IEEE-754 bit pattern of the battery charge used in mAh (f32).
    pub battery_mah_used_bits: u32,
    pub rssi: i16,
    /// IEEE-754 bit pattern of the signal-to-noise ratio (f32).
    pub snr_bits: u32,
    pub timestamp: u64,
    pub packet_sequence: u32,
    pub system_status: u8,
}

/// The frame read from the first 113 bytes of `b`, fields in wire order, little-endian.
pub open spec fn decode_packet(b: Seq<u8>) -> TelemetryPacket {
    TelemetryPacket {
        latitude_bits: spec_u64_from_le_bytes(b.subrange(0, 8)),
        longitude_bits: spec_u64_from_le_bytes(b.subrange(8, 16)),
        altitude_gps_bits: spec_u32_from_le_bytes(b.subrange(16, 20)),
        ground_speed_bits: spec_u32_from_le_bytes(b.subrange(20, 24)),
        heading_bits: spec_u32_from_le_bytes(b.subrange(24, 28)),
        num_satellites: b[28],
        gps_fix_type: b[29],
        altitude_baro_bits: spec_u32_from_le_bytes(b.subrange(30, 34)),
        vertical_speed_bits: spec_u32_from_le_bytes(b.subrange(34, 38)),
        temperature_bits: spec_u32_from_le_bytes(b.subrange(38, 42)),
        roll_bits: spec_u32_from_le_bytes(b.subrange(42, 46)),
        pitch_bits: spec_u32_from_le_bytes(b.subrange(46, 50)),
        yaw_bits: spec_u32_from_le_bytes(b.subrange(50, 54)),
        gyro_x_bits: spec_u32_from_le_bytes(b.subrange(54, 58)),
        gyro_y_bits: spec_u32_from_le_bytes(b.subrange(58, 62)),
        gyro_z_bits: spec_u32_from_le_bytes(b.subrange(62, 66)),
        accel_x_bits: spec_u32_from_le_bytes(b.subrange(66, 70)),
        accel_y_bits: spec_u32_from_le_bytes(b.subrange(70, 74)),
        accel_z_bits: spec_u32_from_le_bytes(b.subrange(74, 78)),
        battery_voltage_bits: spec_u32_from_le_bytes(b.subrange(78, 82)),
        battery_current_bits: spec_u32_from_le_bytes(b.subrange(82, 86)),
        battery_power_bits: spec_u32_from_le_bytes(b.subrange(86, 90)),
        battery_mah_used_bits: spec_u32_from_le_bytes(b.subrange(90, 94)),
        rssi: #[verifier::truncate] (spec_u16_from_le_bytes(b.subrange(94, 96)) as i16),
        snr_bits: spec_u32_from_le_bytes(b.subrange(96, 100)),
        timestamp: spec_u64_from_le_bytes(b.subrange(100, 108)),
        packet_sequence: spec_u32_from_le_bytes(b.subrange(108, 112)),
        system_status: b[112],
    }
}

/// The 113 bytes of a frame, fields in wire order, little-endian.
pub open spec fn packet_bytes(p: TelemetryPacket) -> Seq<u8> {
    spec_u64_to_le_bytes(p.latitude_bits)
        + spec_u64_to_le_bytes(p.longitude_bits)
        + spec_u32_to_le_bytes(p.altitude_gps_bits)
        + spec_u32_to_le_bytes(p.ground_speed_bits)
        + spec_u32_to_le_bytes(p.heading_bits)
        + seq![p.num_satellites]
        + seq![p.gps_fix_type]
        + spec_u32_to_le_bytes(p.altitude_baro_bits)
        + spec_u32_to_le_bytes(p.vertical_speed_bits)
        + spec_u32_to_le_bytes(p.temperature_bits)
        + spec_u32_to_le_bytes(p.roll_bits)
        + spec_u32_to_le_bytes(p.pitch_bits)
        + spec_u32_to_le_bytes(p.yaw_bits)
        + spec_u32_to_le_bytes(p.gyro_x_bits)
        + spec_u32_to_le_bytes(p.gyro_y_bits)
        + spec_u32_to_le_bytes(p.gyro_z_bits)
        + spec_u32_to_le_bytes(p.accel_x_bits)
        + spec_u32_to_le_bytes(p.accel_y_bits)
        + spec_u32_to_le_bytes(p.accel_z_bits)
        + spec_u32_to_le_bytes(p.battery_voltage_bits)
        + spec_u32_to_le_bytes(p.battery_current_bits)
        + spec_u32_to_le_bytes(p.battery_power_bits)
        + spec_u32_to_le_bytes(p.battery_mah_used_bits)
        + spec_u16_to_le_bytes(#[verifier::truncate] (p.rssi as u16))
        + spec_u32_to_le_bytes(p.snr_bits)
        + spec_u64_to_le_bytes(p.timestamp)
        + spec_u32_to_le_bytes(p.packet_sequence)
        + seq![p.system_status]
}

/// Decoding the bytes of a frame gives back the same frame, field for field.
pub proof fn lemma_packet_round_trip(p: TelemetryPacket)
    ensures
        packet_bytes(p).len() == PACKET_SIZE,
        decode_packet(packet_bytes(p)) == p,
{
    lemma_auto_spec_u16_to_from_le_bytes();
    lemma_auto_spec_u32_to_from_le_bytes();
    lemma_auto_spec_u64_to_from_le_bytes();
    let b = packet_bytes(p);
    assert(b.subrange(0, 8) =~= spec_u64_to_le_bytes(p.latitude_bits));
    assert(b.subrange(8, 16) =~= spec_u64_to_le_bytes(p.longitude_bits));
    assert(b.subrange(16, 20) =~= spec_u32_to_le_bytes(p.altitude_gps_bits));
    assert(b.subrange(20, 24) =~= spec_u32_to_le_bytes(p.ground_speed_bits));
    assert(b.subrange(24, 28) =~= spec_u32_to_le_bytes(p.heading_bits));
    assert(b[28] == p.num_satellites);
    assert(b[29] == p.gps_fix_type);
    assert(b.subrange(30, 34) =~= spec_u32_to_le_bytes(p.altitude_baro_bits));
    assert(b.subrange(34, 38) =~= spec_u32_to_le_bytes(p.vertical_speed_bits));
    assert(b.subrange(38, 42) =~= spec_u32_to_le_bytes(p.temperature_bits));
    assert(b.subrange(42, 46) =~= spec_u32_to_le_bytes(p.roll_bits));
    assert(b.subrange(46, 50) =~= spec_u32_to_le_bytes(p.pitch_bits));
    assert(b.subrange(50, 54) =~= spec_u32_to_le_bytes(p.yaw_bits));
    assert(b.subrange(54, 58) =~= spec_u32_to_le_bytes(p.gyro_x_bits));
    assert(b.subrange(58, 62) =~= spec_u32_to_le_bytes(p.gyro_y_bits));
    assert(b.subrange(62, 66) =~= spec_u32_to_le_bytes(p.gyro_z_bits));
    assert(b.subrange(66, 70) =~= spec_u32_to_le_bytes(p.accel_x_bits));
    assert(b.subrange(70, 74) =~= spec_u32_to_le_bytes(p.accel_y_bits));
    assert(b.subrange(74, 78) =~= spec_u32_to_le_bytes(p.accel_z_bits));
    assert(b.subrange(78, 82) =~= spec_u32_to_le_bytes(p.battery_voltage_bits));
    assert(b.subrange(82, 86) =~= spec_u32_to_le_bytes(p.battery_current_bits));
    assert(b.subrange(86, 90) =~= spec_u32_to_le_bytes(p.battery_power_bits));
    assert(b.subrange(90, 94) =~= spec_u32_to_le_bytes(p.battery_mah_used_bits));
    assert(b.subrange(94, 96) =~= spec_u16_to_le_bytes(#[verifier::truncate] (p.rssi as u16)));
    let r = p.rssi;
    assert((#[verifier::truncate] ((#[verifier::truncate] (r as u16)) as i16)) == r) by (bit_vector);
    assert(b.subrange(96, 100) =~= spec_u32_to_le_bytes(p.snr_bits));
    assert(b.subrange(100, 108) =~= spec_u64_to_le_bytes(p.timestamp));
    assert(b.subrange(108, 112) =~= spec_u32_to_le_bytes(p.packet_sequence));
    assert(b[112] == p.system_status);
}

impl TelemetryPacket {
    /// Reads a frame from the first 113 bytes of `bytes`; later bytes are ignored.
    pub fn from_bytes(bytes: &[u8]) -> (r: Result<TelemetryPacket, &'static str>)
        ensures
            bytes@.len() < PACKET_SIZE <==> r is Err,
            r matches Ok(p) ==> p == decode_packet(bytes@),
    {
        if bytes.len() < PACKET_SIZE {
            return Err("Insufficient bytes for telemetry packet");
        }
        Ok(TelemetryPacket {
            latitude_bits: u64_from_le_bytes(slice_subrange(bytes, 0, 8)),
            longitude_bits: u64_from_le_bytes(slice_subrange(bytes, 8, 16)),
            altitude_gps_bits: u32_from_le_bytes(slice_subrange(bytes, 16, 20)),
            ground_speed_bits: u32_from_le_bytes(slice_subrange(bytes, 20, 24)),
            heading_bits: u32_from_le_bytes(slice_subrange(bytes, 24, 28)),
            num_satellites: bytes[28],
            gps_fix_type: bytes[29],
            altitude_baro_bits: u32_from_le_bytes(slice_subrange(bytes, 30, 34)),
            vertical_speed_bits: u32_from_le_bytes(slice_subrange(bytes, 34, 38)),
            temperature_bits: u32_from_le_bytes(slice_subrange(bytes, 38, 42)),
            roll_bits: u32_from_le_bytes(slice_subrange(bytes, 42, 46)),
            pitch_bits: u32_from_le_bytes(slice_subrange(bytes, 46, 50)),
            yaw_bits: u32_from_le_bytes(slice_subrange(bytes, 50, 54)),
            gyro_x_bits: u32_from_le_bytes(slice_subrange(bytes, 54, 58)),
            gyro_y_bits: u32_from_le_bytes(slice_subrange(bytes, 58, 62)),
            gyro_z_bits: u32_from_le_bytes(slice_subrange(bytes, 62, 66)),
            accel_x_bits: u32_from_le_bytes(slice_subrange(bytes, 66, 70)),
            accel_y_bits: u32_from_le_bytes(slice_subrange(bytes, 70, 74)),
            accel_z_bits: u32_from_le_bytes(slice_subrange(bytes, 74, 78)),
            battery_voltage_bits: u32_from_le_bytes(slice_subrange(bytes, 78, 82)),
            battery_current_bits: u32_from_le_bytes(slice_subrange(bytes, 82, 86)),
            battery_power_bits: u32_from_le_bytes(slice_subrange(bytes, 86, 90)),
            battery_mah_used_bits: u32_from_le_bytes(slice_subrange(bytes, 90, 94)),
            rssi: #[verifier::truncate] (u16_from_le_bytes(slice_subrange(bytes, 94, 96)) as i16),
            snr_bits: u32_from_le_bytes(slice_subrange(bytes, 96, 100)),
            timestamp: u64_from_le_bytes(slice_subrange(bytes, 100, 108)),
            packet_sequence: u32_from_le_bytes(slice_subrange(bytes, 108, 112)),
            system_status: bytes[112],
        })
    }

    /// The 113 bytes of this frame.
    pub fn to_bytes(&self) -> (r: Vec<u8>)
        ensures
            r@ == packet_bytes(*self),
    {
        let mut out: Vec<u8> = Vec::new();
        append_bytes(&mut out, u64_to_le_bytes(self.latitude_bits).as_slice());
        append_bytes(&mut out, u64_to_le_bytes(self.longitude_bits).as_slice());
        append_bytes(&mut out, u32_to_le_bytes(self.altitude_gps_bits).as_slice());
        append_bytes(&mut out, u32_to_le_bytes(self.ground_speed_bits).as_slice());
        append_bytes(&mut out, u32_to_le_bytes(self.heading_bits).as_slice());
        out.push(self.num_satellites);
        out.push(self.gps_fix_type);
        append_bytes(&mut out, u32_to_le_bytes(self.altitude_baro_bits).as_slice());
        append_bytes(&mut out, u32_to_le_bytes(self.vertical_speed_bits).as_slice());
        append_bytes(&mut out, u32_to_le_bytes(self.temperature_bits).as_slice());
        append_bytes(&mut out, u32_to_le_bytes(self.roll_bits).as_slice());
        append_bytes(&mut out, u32_to_le_bytes(self.pitch_bits).as_slice());
        append_bytes(&mut out, u32_to_le_bytes(self.yaw_bits).as_slice());
        append_bytes(&mut out, u32_to_le_bytes(self.gyro_x_bits).as_slice());
        append_bytes(&mut out, u32_to_le_bytes(self.gyro_y_bits).as_slice());
        append_bytes(&mut out, u32_to_le_bytes(self.gyro_z_bits).as_slice());
        append_bytes(&mut out, u32_to_le_bytes(self.accel_x_bits).as_slice());
        append_bytes(&mut out, u32_to_le_bytes(self.accel_y_bits).as_slice());
        append_bytes(&mut out, u32_to_le_bytes(self.accel_z_bits).as_slice());
        append_bytes(&mut out, u32_to_le_bytes(self.battery_voltage_bits).as_slice());
        append_bytes(&mut out, u32_to_le_bytes(self.battery_current_bits).as_slice());
        append_bytes(&mut out, u32_to_le_bytes(self.battery_power_bits).as_slice());
        append_bytes(&mut out, u32_to_le_bytes(self.battery_mah_used_bits).as_slice());
        append_bytes(&mut out, u16_to_le_bytes(#[verifier::truncate] (self.rssi as u16)).as_slice());
        append_bytes(&mut out, u32_to_le_bytes(self.snr_bits).as_slice());
        append_bytes(&mut out, u64_to_le_bytes(self.timestamp).as_slice());
        append_bytes(&mut out, u32_to_le_bytes(self.packet_sequence).as_slice());
        out.push(self.system_status);
        proof {
            assert(out@ =~= packet_bytes(*self));
        }
        out
    }
}

} // verus!
