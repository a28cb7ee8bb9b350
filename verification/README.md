# waybright

Brightness control for Wayland desktops, with its logic verified by Verus.

The library in `src/` holds the decisions of the tools, each with a contract
that Verus proves:

- `level`: brightness changes such as `50%`, `+5%`, `-5%`, `*120%`, `/120%`,
  their parsing and their application to a current percentage;
- `edid`, `drm`, `backlight`, `ddcci`: base EDID blocks, DRM connector and
  i2c bus names, and the mapping of backlights and DDC/CI monitors to outputs;
- `devices`, `waybright_lib`: the brightness devices by output name and the
  writes that set them;
- `protocol`, `waydim`, `waydark`: the text protocols of the brightness daemon
  and of the dimming daemon, the requests they answer and the state they keep;
- `combined`: hardware brightness combined with software dimming;
- `focus`, `outputs`: choosing the compositor to ask for the focused output,
  and the listing of Wayland outputs;
- `table`, `text`: a name-ordered map and the text handling beneath the rest.

`app/` holds the command-line tools around the library: reading sysfs and
the i2c devices, the sockets, Wayland, D-Bus and the compositors' commands.
