# camera_ports

Stable identifiers for Linux cameras, verified with Verus.

- `device_serial`: the serial number of the USB device behind `/dev/videoN`, as
  udev writes it in a name.
- `device_bus`: where the device is attached, from the V4L2 `bus_info` field.
- `sensor_name`: the entity name of the camera sensor that feeds the device,
  from the media-controller graph, such as `imx708 10-001a`.

`src/` holds the rules and touches no device: each of the three functions takes
the replies that have come back so far and says what to ask for next, or gives
the result. `app/` asks the file system and the kernel.

| module      | what it holds                                                |
|-------------|--------------------------------------------------------------|
| `abi`       | objects that the kernel reports, ioctl request numbers       |
| `text`      | texts in fields and files: NUL, UTF-8, white space, decimals |
| `component` | names as udev writes them                                    |
| `devices`   | device numbers, the media devices in `/dev`                  |
| `media`     | the media graph and how it is built                          |
| `walk`      | walks through the graph, their order, the nearest sensor     |
| `sensor`    | the breadth-first search for the sensor                      |
| `paths`     | paths of a video device                                      |
| `serial`    | the search for the USB device, its serial number             |
| `bus`       | the bus location                                             |
| `name`      | the sensor name                                              |
